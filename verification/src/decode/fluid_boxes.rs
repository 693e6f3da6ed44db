use crate::decode::vec_or_map::{elements_decoded, VecOrMap};
use crate::decode::Decode;
use crate::error::{DecodeError, DecodeErrorView, FormatError, FormatErrorView};
use crate::record::wrong_kind;
use crate::text::{chars_of, parse_unsigned, same_text, unsigned_parsed};
use crate::value::{entries_view, JsonValue, RawValue};
use vstd::prelude::*;

verus! {

/// The fluid boxes of a machine, with the switch that some documents write beside them.
#[derive(Debug)]
pub struct FluidBoxes<T> {
    pub boxes: Vec<T>,
    pub off_when_no_fluid_recipe: bool,
}

impl<T> Default for FluidBoxes<T> {
    fn default() -> (boxes: Self)
        ensures
            boxes.boxes@.len() == 0,
            !boxes.off_when_no_fluid_recipe,
    {
        FluidBoxes { boxes: Vec::new(), off_when_no_fluid_recipe: false }
    }
}

/// The mathematical content of [`FluidBoxes`].
pub struct FluidBoxesView<V> {
    pub boxes: Seq<V>,
    pub off_when_no_fluid_recipe: bool,
}

impl<T: View> View for FluidBoxes<T> {
    type V = FluidBoxesView<T::V>;

    open spec fn view(&self) -> FluidBoxesView<T::V> {
        FluidBoxesView {
            boxes: Seq::new(self.boxes@.len(), |i: int| self.boxes@[i]@),
            off_when_no_fluid_recipe: self.off_when_no_fluid_recipe,
        }
    }
}

/// Whether `key` writes an integer of 32 bits: decimal digits, after a sign or without one.
pub open spec fn is_index(key: Seq<char>) -> bool {
    if key.len() > 0 && key[0] == '-' {
        unsigned_parsed(key.skip(1), 0x8000_0000) is Some
    } else if key.len() > 0 && key[0] == '+' {
        unsigned_parsed(key.skip(1), 0x7fff_ffff) is Some
    } else {
        unsigned_parsed(key, 0x7fff_ffff) is Some
    }
}

/// Decides [`is_index`].
pub fn key_is_index(key: &str) -> (yes: bool)
    ensures
        yes == is_index(key@),
{
    let chars = chars_of(key);
    if chars.len() > 0 && chars[0] == '-' {
        parse_unsigned(&chars, 1, 0x8000_0000).is_some()
    } else if chars.len() > 0 && chars[0] == '+' {
        parse_unsigned(&chars, 1, 0x7fff_ffff).is_some()
    } else {
        assert(chars@.skip(0) =~= chars@);
        parse_unsigned(&chars, 0, 0x7fff_ffff).is_some()
    }
}

/// What the entries of a map from `from` on give, with what the entries before gave: the
/// switch under its own key, and a box under each key that writes an integer. Any other key is
/// refused.
pub open spec fn boxes_in_map<T: Decode>(
    entries: Seq<(Seq<char>, JsonValue)>,
    from: int,
    boxes: Seq<T::V>,
    off: bool,
) -> Result<FluidBoxesView<T::V>, DecodeErrorView>
    decreases entries.len() - from,
{
    if from < 0 || from >= entries.len() {
        Ok(FluidBoxesView { boxes, off_when_no_fluid_recipe: off })
    } else {
        let key = entries[from].0;
        let value = entries[from].1;
        if key == "off_when_no_fluid_recipe"@ {
            match value {
                JsonValue::Bool(b) => boxes_in_map::<T>(entries, from + 1, boxes, b),
                other => Err(wrong_kind(other)),
            }
        } else if !is_index(key) {
            Err(DecodeErrorView::Format(FormatErrorView::UnknownField(key)))
        } else {
            match T::decoded(value) {
                Ok(x) => boxes_in_map::<T>(entries, from + 1, boxes.push(x), off),
                Err(e) => Err(e),
            }
        }
    }
}

/// What decoding a value as fluid boxes gives: the boxes of a sequence, with the switch off,
/// or the boxes and the switch of a map.
pub open spec fn fluid_boxes_decoded<T: Decode>(value: JsonValue) -> Result<
    FluidBoxesView<T::V>,
    DecodeErrorView,
> {
    match value {
        JsonValue::Array(items) => match elements_decoded::<T>(items, items.len() as int) {
            Ok(boxes) => Ok(FluidBoxesView { boxes, off_when_no_fluid_recipe: false }),
            Err(e) => Err(e),
        },
        JsonValue::Object(entries) => boxes_in_map::<T>(entries, 0, Seq::empty(), false),
        other => Err(wrong_kind(other)),
    }
}

impl<T: Decode> Decode for FluidBoxes<T> {
    open spec fn decoded(value: JsonValue) -> Result<FluidBoxesView<T::V>, DecodeErrorView> {
        fluid_boxes_decoded::<T>(value)
    }

    fn decode(value: &RawValue) -> (got: Result<FluidBoxes<T>, DecodeError>) {
        match value {
            RawValue::Array(_) => match VecOrMap::<T>::decode(value) {
                Ok(list) => {
                    let ghost view = list@;
                    let boxes = FluidBoxes { boxes: list.0, off_when_no_fluid_recipe: false };
                    assert(boxes@.boxes =~= view);
                    Ok(boxes)
                },
                Err(e) => Err(e),
            },
            RawValue::Object(entries) => {
                proof {
                    RawValue::lemma_object_view(*entries);
                }
                let ghost all = entries_view(entries@);
                let mut result: FluidBoxes<T> = FluidBoxes {
                    boxes: Vec::new(),
                    off_when_no_fluid_recipe: false,
                };
                assert(result@.boxes =~= Seq::<T::V>::empty());
                let mut i: usize = 0;
                while i < entries.len()
                    invariant
                        i <= entries.len(),
                        all == entries_view(entries@),
                        value@ == JsonValue::Object(all),
                        boxes_in_map::<T>(all, 0, Seq::empty(), false) == boxes_in_map::<T>(
                            all,
                            i as int,
                            result@.boxes,
                            result.off_when_no_fluid_recipe,
                        ),
                    decreases entries.len() - i,
                {
                    assert(all[i as int] == (entries@[i as int].0@, entries@[i as int].1@));
                    let key = entries[i].0.as_str();
                    if same_text(key, "off_when_no_fluid_recipe") {
                        match &entries[i].1 {
                            RawValue::Bool(b) => {
                                let ghost before = result@.boxes;
                                result.off_when_no_fluid_recipe = *b;
                                assert(result@.boxes =~= before);
                            },
                            other => {
                                return Err(
                                    DecodeError::Format(FormatError::UnexpectedKind(other.kind())),
                                );
                            },
                        }
                    } else if !key_is_index(key) {
                        return Err(
                            DecodeError::Format(FormatError::UnknownField(entries[i].0.clone())),
                        );
                    } else {
                        match T::decode(&entries[i].1) {
                            Ok(x) => {
                                let ghost before = result@.boxes;
                                let ghost view = x@;
                                result.boxes.push(x);
                                assert(result@.boxes =~= before.push(view));
                            },
                            Err(e) => {
                                return Err(e);
                            },
                        }
                    }
                    i += 1;
                }
                Ok(result)
            },
            other => Err(DecodeError::Format(FormatError::UnexpectedKind(other.kind()))),
        }
    }
}

} // verus!
