use crate::decode::{agrees, Decode};
use crate::error::{DecodeError, DecodeErrorView, FormatError, FormatErrorView};
use crate::value::{kind_of, values_view, JsonValue, RawValue};
use vstd::prelude::*;

verus! {

/// A list that some documents write as an empty map where it has no element.
#[derive(Debug)]
pub struct VecOrMap<T>(pub Vec<T>);

impl<T: View> View for VecOrMap<T> {
    type V = Seq<T::V>;

    open spec fn view(&self) -> Seq<T::V> {
        Seq::new(self.0@.len(), |i: int| self.0@[i]@)
    }
}

/// What the first `upto` values of `items` decode to, one after the other: the first failure
/// is the outcome.
pub open spec fn elements_decoded<T: Decode>(items: Seq<JsonValue>, upto: int) -> Result<
    Seq<T::V>,
    DecodeErrorView,
>
    decreases upto,
{
    if upto <= 0 {
        Ok(Seq::empty())
    } else {
        match elements_decoded::<T>(items, upto - 1) {
            Err(e) => Err(e),
            Ok(before) => match T::decoded(items[upto - 1]) {
                Ok(x) => Ok(before.push(x)),
                Err(e) => Err(e),
            },
        }
    }
}

/// What decoding a value as a list gives: a sequence gives its elements, an empty map gives no
/// element, a map with entries is refused.
pub open spec fn list_decoded<T: Decode>(value: JsonValue) -> Result<Seq<T::V>, DecodeErrorView> {
    match value {
        JsonValue::Array(items) => elements_decoded::<T>(items, items.len() as int),
        JsonValue::Object(entries) => if entries.len() == 0 {
            Ok(Seq::empty())
        } else {
            Err(DecodeErrorView::Format(FormatErrorView::ExpectedEmptyMap))
        },
        other => Err(DecodeErrorView::Format(FormatErrorView::UnexpectedKind(kind_of(other)))),
    }
}

impl<T> std::ops::Deref for VecOrMap<T> {
    type Target = Vec<T>;

    /// The elements.
    fn deref(&self) -> (items: &Vec<T>)
        ensures
            items == self.0,
    {
        &self.0
    }
}

impl<T: Decode> Decode for VecOrMap<T> {
    open spec fn decoded(value: JsonValue) -> Result<Seq<T::V>, DecodeErrorView> {
        list_decoded::<T>(value)
    }

    fn decode(value: &RawValue) -> (got: Result<VecOrMap<T>, DecodeError>) {
        match value {
            RawValue::Array(items) => {
                proof {
                    RawValue::lemma_array_view(*items);
                }
                let ghost all = values_view(items@);
                let mut out: Vec<T> = Vec::new();
                let mut i: usize = 0;
                assert(VecOrMap(out)@ =~= Seq::<T::V>::empty());
                while i < items.len()
                    invariant
                        i <= items.len(),
                        all == values_view(items@),
                        value@ == JsonValue::Array(all),
                        elements_decoded::<T>(all, i as int) == Ok::<Seq<T::V>, DecodeErrorView>(
                            VecOrMap(out)@,
                        ),
                    decreases items.len() - i,
                {
                    let ghost before = VecOrMap(out)@;
                    match T::decode(&items[i]) {
                        Ok(x) => {
                            out.push(x);
                            assert(VecOrMap(out)@ =~= before.push(x@));
                        },
                        Err(e) => {
                            proof {
                                lemma_failure_stays::<T>(all, i as int + 1, all.len() as int);
                            }
                            return Err(e);
                        },
                    }
                    i += 1;
                }
                Ok(VecOrMap(out))
            },
            RawValue::Object(entries) => {
                proof {
                    RawValue::lemma_object_view(*entries);
                }
                if entries.len() == 0 {
                    let out = VecOrMap(Vec::new());
                    assert(out@ =~= Seq::<T::V>::empty());
                    Ok(out)
                } else {
                    Err(DecodeError::Format(FormatError::ExpectedEmptyMap))
                }
            },
            other => Err(DecodeError::Format(FormatError::UnexpectedKind(other.kind()))),
        }
    }
}

/// Once an element has failed, the outcome is that failure however many elements follow.
pub proof fn lemma_failure_stays<T: Decode>(items: Seq<JsonValue>, at: int, upto: int)
    requires
        0 <= at <= upto,
        elements_decoded::<T>(items, at) is Err,
    ensures
        elements_decoded::<T>(items, upto) == elements_decoded::<T>(items, at),
    decreases upto - at,
{
    if at < upto {
        lemma_failure_stays::<T>(items, at, upto - 1);
    }
}

/// A sequence without elements and a map without entries both decode to the empty list, and a
/// map with entries is refused.
pub proof fn lemma_empty_forms<T: Decode>(entries: Seq<(Seq<char>, JsonValue)>)
    ensures
        list_decoded::<T>(JsonValue::Array(Seq::empty())) == Ok::<Seq<T::V>, DecodeErrorView>(
            Seq::empty(),
        ),
        list_decoded::<T>(JsonValue::Object(Seq::empty())) == Ok::<Seq<T::V>, DecodeErrorView>(
            Seq::empty(),
        ),
        entries.len() > 0 ==> list_decoded::<T>(JsonValue::Object(entries)) == Err::<
            Seq<T::V>,
            DecodeErrorView,
        >(DecodeErrorView::Format(FormatErrorView::ExpectedEmptyMap)),
{
}

} // verus!
