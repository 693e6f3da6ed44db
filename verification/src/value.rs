use crate::error::Kind;
use vstd::prelude::*;

verus! {

/// A JSON value as it stands in a document. A number is kept as its literal.
#[derive(Debug, PartialEq, Eq)]
pub enum RawValue {
    Null,
    Bool(bool),
    Number(String),
    String(String),
    Array(Vec<RawValue>),
    Object(Vec<(String, RawValue)>),
}

/// The mathematical content of a [`RawValue`].
pub enum JsonValue {
    Null,
    Bool(bool),
    Number(Seq<char>),
    String(Seq<char>),
    Array(Seq<JsonValue>),
    Object(Seq<(Seq<char>, JsonValue)>),
}

/// The views of a sequence of values, element by element.
pub open spec fn values_view(items: Seq<RawValue>) -> Seq<JsonValue> {
    Seq::new(items.len(), |i: int| items[i]@)
}

/// The views of a sequence of object entries, element by element.
pub open spec fn entries_view(entries: Seq<(String, RawValue)>) -> Seq<(Seq<char>, JsonValue)> {
    Seq::new(entries.len(), |i: int| (entries[i].0@, entries[i].1@))
}

/// What a value holds: the model that the contracts of this crate speak of.
pub open spec fn json_of(value: RawValue) -> JsonValue
    decreases value,
{
    match value {
        RawValue::Null => JsonValue::Null,
        RawValue::Bool(b) => JsonValue::Bool(b),
        RawValue::Number(n) => JsonValue::Number(n@),
        RawValue::String(s) => JsonValue::String(s@),
        RawValue::Array(items) => JsonValue::Array(
            Seq::new(
                items@.len(),
                |i: int|
                    if 0 <= i < items@.len() {
                        json_of(items@[i])
                    } else {
                        JsonValue::Null
                    },
            ),
        ),
        RawValue::Object(entries) => JsonValue::Object(
            Seq::new(
                entries@.len(),
                |i: int|
                    if 0 <= i < entries@.len() {
                        (entries@[i].0@, json_of(entries@[i].1))
                    } else {
                        (Seq::empty(), JsonValue::Null)
                    },
            ),
        ),
    }
}

/// The kind of a value.
pub open spec fn kind_of(value: JsonValue) -> Kind {
    match value {
        JsonValue::Null => Kind::Null,
        JsonValue::Bool(_) => Kind::Bool,
        JsonValue::Number(_) => Kind::Number,
        JsonValue::String(_) => Kind::String,
        JsonValue::Array(_) => Kind::Array,
        JsonValue::Object(_) => Kind::Object,
    }
}

impl View for RawValue {
    type V = JsonValue;

    open spec fn view(&self) -> JsonValue {
        json_of(*self)
    }
}

impl RawValue {
    /// The kind of the value.
    pub fn kind(&self) -> (kind: Kind)
        ensures
            kind == kind_of(self@),
    {
        match self {
            RawValue::Null => Kind::Null,
            RawValue::Bool(_) => Kind::Bool,
            RawValue::Number(_) => Kind::Number,
            RawValue::String(_) => Kind::String,
            RawValue::Array(_) => Kind::Array,
            RawValue::Object(_) => Kind::Object,
        }
    }

    /// The view of an array is the sequence of its elements' views.
    pub proof fn lemma_array_view(items: Vec<RawValue>)
        ensures
            RawValue::Array(items)@ == JsonValue::Array(values_view(items@)),
    {
        assert(RawValue::Array(items)@->Array_0 =~= values_view(items@));
    }

    /// The view of an object is the sequence of its entries' views.
    pub proof fn lemma_object_view(entries: Vec<(String, RawValue)>)
        ensures
            RawValue::Object(entries)@ == JsonValue::Object(entries_view(entries@)),
    {
        let v = RawValue::Object(entries);
        match v@ {
            JsonValue::Object(whole) => {
                assert(whole.len() == entries@.len());
                assert(whole =~= entries_view(entries@));
            },
            _ => {},
        }
    }

    /// A copy of the whole value.
    pub fn duplicate(&self) -> (copy: RawValue)
        ensures
            copy@ == self@,
        decreases self,
    {
        match self {
            RawValue::Null => RawValue::Null,
            RawValue::Bool(b) => RawValue::Bool(*b),
            RawValue::Number(n) => RawValue::Number(n.clone()),
            RawValue::String(s) => RawValue::String(s.clone()),
            RawValue::Array(items) => {
                let mut out: Vec<RawValue> = Vec::new();
                let mut i: usize = 0;
                while i < items.len()
                    invariant
                        i <= items.len(),
                        decreases_to!(self => items),
                        out@.len() == i,
                        forall|j: int| 0 <= j < i ==> (#[trigger] out@[j])@ == items@[j]@,
                    decreases items.len() - i,
                {
                    assert(decreases_to!(*items => items[i as int]));
                    let item = items[i].duplicate();
                    out.push(item);
                    i += 1;
                }
                proof {
                    Self::lemma_array_view(out);
                    Self::lemma_array_view(*items);
                    assert(values_view(out@) =~= values_view(items@));
                }
                RawValue::Array(out)
            },
            RawValue::Object(entries) => {
                let mut out: Vec<(String, RawValue)> = Vec::new();
                let mut i: usize = 0;
                while i < entries.len()
                    invariant
                        i <= entries.len(),
                        decreases_to!(self => entries),
                        out@.len() == i,
                        forall|j: int|
                            0 <= j < i ==> (#[trigger] out@[j]).0@ == entries@[j].0@ && out@[j].1@
                                == entries@[j].1@,
                    decreases entries.len() - i,
                {
                    assert(decreases_to!(*entries => entries[i as int]));
                    assert(decreases_to!(entries[i as int] => entries[i as int].1));
                    let value = entries[i].1.duplicate();
                    out.push((entries[i].0.clone(), value));
                    i += 1;
                }
                proof {
                    Self::lemma_object_view(out);
                    Self::lemma_object_view(*entries);
                    assert(entries_view(out@) =~= entries_view(entries@));
                }
                RawValue::Object(out)
            },
        }
    }
}

} // verus!
