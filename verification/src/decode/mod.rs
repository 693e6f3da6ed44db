pub mod flags;
pub mod fluid_boxes;
pub mod int_or_infinite;
pub mod not_used;
pub mod prerequisites;
pub mod unit;
pub mod vec_or_map;

use crate::error::{DecodeError, DecodeErrorView};
use crate::value::{JsonValue, RawValue};
use vstd::prelude::*;

verus! {

/// Whether an outcome `got` is the outcome `model`, seen through the views.
pub open spec fn agrees<T: View>(
    got: Result<T, DecodeError>,
    model: Result<T::V, DecodeErrorView>,
) -> bool {
    match got {
        Ok(x) => model == Ok::<T::V, DecodeErrorView>(x@),
        Err(e) => model == Err::<T::V, DecodeErrorView>(e@),
    }
}

/// A type that can be read from a JSON value. `decoded` says what reading gives, for every
/// value; `decode` computes it.
pub trait Decode: View + Sized {
    spec fn decoded(value: JsonValue) -> Result<Self::V, DecodeErrorView>;

    fn decode(value: &RawValue) -> (got: Result<Self, DecodeError>)
        ensures
            agrees(got, Self::decoded(value@)),
    ;
}

} // verus!
