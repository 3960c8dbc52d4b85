//! Schema-less field values and their mathematical view.

use vstd::prelude::*;

verus! {

/// A value stored under a field name.
#[derive(Debug, PartialEq, Eq)]
pub enum Value {
    Null,
    Boolean(bool),
    Number(i64),
    Text(String),
    /// Milliseconds since the Unix epoch.
    Timestamp(i64),
    Sequence(Vec<Value>),
    /// A nested document: field names with their values, in order.
    Mapping(Vec<(String, Value)>),
    /// A scalar of the store that the library only carries along, in the
    /// store's own encoding.
    Opaque(Vec<u8>),
}

/// What a [`Value`] is, independent of how it is held in memory.
#[verifier::ext_equal]
pub ghost enum ValueView {
    Null,
    Boolean(bool),
    Number(int),
    Text(Seq<char>),
    Timestamp(int),
    Sequence(Seq<ValueView>),
    Mapping(Seq<(Seq<char>, ValueView)>),
    Opaque(Seq<u8>),
}

impl View for Value {
    type V = ValueView;

    open spec fn view(&self) -> ValueView
        decreases self,
    {
        match self {
            Value::Null => ValueView::Null,
            Value::Boolean(b) => ValueView::Boolean(*b),
            Value::Number(n) => ValueView::Number(*n as int),
            Value::Text(s) => ValueView::Text(s@),
            Value::Timestamp(t) => ValueView::Timestamp(*t as int),
            Value::Sequence(items) => ValueView::Sequence(
                Seq::new(
                    items@.len(),
                    |i: int|
                        if 0 <= i < items@.len() {
                            items@[i].view()
                        } else {
                            ValueView::Null
                        },
                ),
            ),
            Value::Mapping(entries) => ValueView::Mapping(
                Seq::new(
                    entries@.len(),
                    |i: int|
                        if 0 <= i < entries@.len() {
                            (entries@[i].0@, entries@[i].1.view())
                        } else {
                            (Seq::empty(), ValueView::Null)
                        },
                ),
            ),
            Value::Opaque(bytes) => ValueView::Opaque(bytes@),
        }
    }
}

/// The views of a vector of values, element by element.
pub open spec fn views_of(items: Seq<Value>) -> Seq<ValueView> {
    Seq::new(items.len(), |i: int| items[i]@)
}

/// A sequence value is seen as the sequence of its items' views.
pub proof fn lemma_sequence_view(items: Vec<Value>)
    ensures
        Value::Sequence(items)@ == ValueView::Sequence(views_of(items@)),
{
    assert(Value::Sequence(items)@->Sequence_0 =~= views_of(items@));
}

impl Value {
    /// A deep copy.
    pub fn duplicate(&self) -> (copy: Value)
        ensures
            copy@ == self@,
        decreases self,
    {
        match self {
            Value::Null => Value::Null,
            Value::Boolean(b) => Value::Boolean(*b),
            Value::Number(n) => Value::Number(*n),
            Value::Text(s) => Value::Text(s.clone()),
            Value::Timestamp(t) => Value::Timestamp(*t),
            Value::Sequence(items) => {
                let mut copies: Vec<Value> = Vec::new();
                let mut i: usize = 0;
                while i < items.len()
                    invariant
                        *self == Value::Sequence(*items),
                        i <= items.len(),
                        copies.len() == i,
                        forall|k: int| 0 <= k < i ==> copies@[k]@ == items@[k]@,
                    decreases items.len() - i,
                {
                    proof {
                        assert(decreases_to!(self => self->Sequence_0));
                        assert(decreases_to!(items => items@));
                        assert(decreases_to!(items@ => items@[i as int]));
                    }
                    copies.push(items[i].duplicate());
                    i += 1;
                }
                let copy = Value::Sequence(copies);
                assert(copy@ == self@) by {
                    assert(copy@->Sequence_0 =~= self@->Sequence_0);
                }
                copy
            },
            Value::Mapping(entries) => {
                let mut copies: Vec<(String, Value)> = Vec::new();
                let mut i: usize = 0;
                while i < entries.len()
                    invariant
                        *self == Value::Mapping(*entries),
                        i <= entries.len(),
                        copies.len() == i,
                        forall|k: int|
                            0 <= k < i ==> copies@[k].0@ == entries@[k].0@ && copies@[k].1@
                                == entries@[k].1@,
                    decreases entries.len() - i,
                {
                    proof {
                        assert(decreases_to!(self => self->Mapping_0));
                        assert(decreases_to!(entries => entries@));
                        assert(decreases_to!(entries@ => entries@[i as int]));
                        assert(decreases_to!(entries@[i as int] => entries@[i as int].1));
                    }
                    copies.push((entries[i].0.clone(), entries[i].1.duplicate()));
                    i += 1;
                }
                let copy = Value::Mapping(copies);
                assert(copy@ == self@) by {
                    assert(copy@->Mapping_0 =~= self@->Mapping_0);
                }
                copy
            },
            Value::Opaque(bytes) => {
                let mut copies: Vec<u8> = Vec::new();
                let mut i: usize = 0;
                while i < bytes.len()
                    invariant
                        i <= bytes.len(),
                        copies.len() == i,
                        forall|k: int| 0 <= k < i ==> copies@[k] == bytes@[k],
                    decreases bytes.len() - i,
                {
                    copies.push(bytes[i]);
                    i += 1;
                }
                assert(copies@ =~= bytes@);
                Value::Opaque(copies)
            },
        }
    }
}

} // verus!
