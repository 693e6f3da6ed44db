use crate::decode::Decode;
use crate::error::{DecodeError, DecodeErrorView, FormatError, FormatErrorView};
use crate::record::wrong_kind;
use crate::table::{lemma_insert_adds_name, names_of, Table};
use crate::value::{entries_view, values_view, JsonValue, RawValue};
use vstd::prelude::*;

verus! {

/// What has to be there before something else: a set of names.
#[derive(Debug)]
pub struct Prerequisites {
    pub prerequisites: Table<()>,
}

impl View for Prerequisites {
    type V = Set<Seq<char>>;

    open spec fn view(&self) -> Set<Seq<char>> {
        names_of(self.prerequisites.entries()).to_set()
    }
}

/// The names that the first `upto` values give, where each is a string: the first value that
/// is not a string is the outcome.
pub open spec fn names_decoded(values: Seq<JsonValue>, upto: int) -> Result<
    Set<Seq<char>>,
    DecodeErrorView,
>
    decreases upto,
{
    if upto <= 0 {
        Ok(Set::empty())
    } else {
        match names_decoded(values, upto - 1) {
            Err(e) => Err(e),
            Ok(before) => match values[upto - 1] {
                JsonValue::String(name) => Ok(before.insert(name)),
                other => Err(wrong_kind(other)),
            },
        }
    }
}

/// The values of the entries of a map, in order.
pub open spec fn entry_values(entries: Seq<(Seq<char>, JsonValue)>) -> Seq<JsonValue> {
    Seq::new(entries.len(), |i: int| entries[i].1)
}

/// What decoding a value as prerequisites gives: the strings of a sequence, or the values of a
/// map, whose keys are dropped; each name once.
pub open spec fn prerequisites_decoded(value: JsonValue) -> Result<Set<Seq<char>>, DecodeErrorView> {
    match value {
        JsonValue::Array(items) => names_decoded(items, items.len() as int),
        JsonValue::Object(entries) => names_decoded(entry_values(entries), entries.len() as int),
        other => Err(wrong_kind(other)),
    }
}

/// Once a value has been refused, the outcome is that failure however many values follow.
pub proof fn lemma_names_failure_stays(values: Seq<JsonValue>, at: int, upto: int)
    requires
        0 <= at <= upto,
        names_decoded(values, at) is Err,
    ensures
        names_decoded(values, upto) == names_decoded(values, at),
    decreases upto - at,
{
    if at < upto {
        lemma_names_failure_stays(values, at, upto - 1);
    }
}

impl Prerequisites {
    /// Adds the name that `value` holds to `names`, or says what `value` is instead.
    fn add(names: &mut Table<()>, value: &RawValue) -> (added: Result<(), DecodeError>)
        requires
            old(names).wf(),
        ensures
            final(names).wf(),
            match added {
                Ok(_) => value@ matches JsonValue::String(name) && names_of(
                    final(names).entries(),
                ).to_set() == names_of(old(names).entries()).to_set().insert(name),
                Err(e) => !(value@ is String) && e@ == wrong_kind(value@),
            },
    {
        match value {
            RawValue::String(name) => {
                let ghost before = names.entries();
                names.insert(name.clone(), ());
                proof {
                    lemma_insert_adds_name(before, names.entries(), name@);
                }
                Ok(())
            },
            other => Err(DecodeError::Format(FormatError::UnexpectedKind(other.kind()))),
        }
    }
}

impl Decode for Prerequisites {
    open spec fn decoded(value: JsonValue) -> Result<Set<Seq<char>>, DecodeErrorView> {
        prerequisites_decoded(value)
    }

    fn decode(value: &RawValue) -> (got: Result<Prerequisites, DecodeError>)
        ensures
            got matches Ok(p) ==> p.prerequisites.wf(),
    {
        let mut names: Table<()> = Table::new();
        assert(names_of(names.entries()).to_set() =~= Set::<Seq<char>>::empty());
        match value {
            RawValue::Array(items) => {
                proof {
                    RawValue::lemma_array_view(*items);
                }
                let ghost all = values_view(items@);
                let mut i: usize = 0;
                while i < items.len()
                    invariant
                        i <= items.len(),
                        names.wf(),
                        all == values_view(items@),
                        value@ == JsonValue::Array(all),
                        names_decoded(all, i as int) == Ok::<Set<Seq<char>>, DecodeErrorView>(
                            names_of(names.entries()).to_set(),
                        ),
                    decreases items.len() - i,
                {
                    assert(all[i as int] == items@[i as int]@);
                    match Prerequisites::add(&mut names, &items[i]) {
                        Ok(_) => {},
                        Err(e) => {
                            proof {
                                lemma_names_failure_stays(all, i as int + 1, all.len() as int);
                            }
                            return Err(e);
                        },
                    }
                    i += 1;
                }
                Ok(Prerequisites { prerequisites: names })
            },
            RawValue::Object(entries) => {
                proof {
                    RawValue::lemma_object_view(*entries);
                }
                let ghost all = entry_values(entries_view(entries@));
                let mut i: usize = 0;
                while i < entries.len()
                    invariant
                        i <= entries.len(),
                        names.wf(),
                        all == entry_values(entries_view(entries@)),
                        value@ == JsonValue::Object(entries_view(entries@)),
                        names_decoded(all, i as int) == Ok::<Set<Seq<char>>, DecodeErrorView>(
                            names_of(names.entries()).to_set(),
                        ),
                    decreases entries.len() - i,
                {
                    assert(all[i as int] == entries@[i as int].1@);
                    match Prerequisites::add(&mut names, &entries[i].1) {
                        Ok(_) => {},
                        Err(e) => {
                            proof {
                                lemma_names_failure_stays(all, i as int + 1, all.len() as int);
                            }
                            return Err(e);
                        },
                    }
                    i += 1;
                }
                Ok(Prerequisites { prerequisites: names })
            },
            other => Err(DecodeError::Format(FormatError::UnexpectedKind(other.kind()))),
        }
    }
}

} // verus!
