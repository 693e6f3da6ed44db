use crate::decode::Decode;
use crate::error::{DecodeError, DecodeErrorView, FormatError, FormatErrorView};
use crate::text::{chars_of, parse_unsigned, same_text, unsigned_parsed};
use crate::value::{kind_of, JsonValue, RawValue};
use vstd::prelude::*;

verus! {

/// A count that may be without limit.
#[derive(Debug, Clone, Copy, PartialEq, Eq, Structural)]
pub enum IntOrInfinite {
    Int(usize),
    Infinite,
}

impl View for IntOrInfinite {
    type V = IntOrInfinite;

    open spec fn view(&self) -> IntOrInfinite {
        *self
    }
}

/// The number that a text of decimal digits writes, after a plus sign or without one.
pub open spec fn signed_text_parsed(text: Seq<char>, max: nat) -> Option<nat> {
    if text.len() > 0 && text[0] == '+' {
        unsigned_parsed(text.skip(1), max)
    } else {
        unsigned_parsed(text, max)
    }
}

/// What decoding a value as a count gives: a number literal of decimal digits, or a text of
/// decimal digits after a plus sign or without one, gives the count; the word `infinite` gives
/// no limit.
pub open spec fn limit_decoded(value: JsonValue) -> Result<IntOrInfinite, DecodeErrorView> {
    match value {
        JsonValue::Number(literal) => match unsigned_parsed(literal, usize::MAX as nat) {
            Some(n) => Ok(IntOrInfinite::Int(n as usize)),
            None => Err(DecodeErrorView::Format(FormatErrorView::InvalidInteger(literal))),
        },
        JsonValue::String(text) => if text == "infinite"@ {
            Ok(IntOrInfinite::Infinite)
        } else {
            match signed_text_parsed(text, usize::MAX as nat) {
                Some(n) => Ok(IntOrInfinite::Int(n as usize)),
                None => Err(DecodeErrorView::Format(FormatErrorView::InvalidLimit(text))),
            }
        },
        other => Err(DecodeErrorView::Format(FormatErrorView::UnexpectedKind(kind_of(other)))),
    }
}

/// Reads an unsigned decimal number that a `usize` can hold.
pub fn parse_size(text: &str) -> (parsed: Option<usize>)
    ensures
        parsed == match unsigned_parsed(text@, usize::MAX as nat) {
            Some(n) => Some(n as usize),
            None => None::<usize>,
        },
{
    let chars = chars_of(text);
    assert(chars@.skip(0) =~= chars@);
    match parse_unsigned(&chars, 0, usize::MAX as u64) {
        Some(n) => Some(n as usize),
        None => None,
    }
}

/// Reads an unsigned decimal number that a `usize` can hold, after a plus sign or without one.
pub fn parse_size_text(text: &str) -> (parsed: Option<usize>)
    ensures
        parsed == match signed_text_parsed(text@, usize::MAX as nat) {
            Some(n) => Some(n as usize),
            None => None::<usize>,
        },
{
    let chars = chars_of(text);
    let from: usize = if chars.len() > 0 && chars[0] == '+' {
        1
    } else {
        0
    };
    assert(chars@.skip(0) =~= chars@);
    match parse_unsigned(&chars, from, usize::MAX as u64) {
        Some(n) => Some(n as usize),
        None => None,
    }
}

impl Decode for IntOrInfinite {
    open spec fn decoded(value: JsonValue) -> Result<IntOrInfinite, DecodeErrorView> {
        limit_decoded(value)
    }

    fn decode(value: &RawValue) -> (got: Result<IntOrInfinite, DecodeError>) {
        match value {
            RawValue::Number(literal) => match parse_size(literal.as_str()) {
                Some(n) => Ok(IntOrInfinite::Int(n)),
                None => Err(DecodeError::Format(FormatError::InvalidInteger(literal.clone()))),
            },
            RawValue::String(text) => if same_text(text.as_str(), "infinite") {
                Ok(IntOrInfinite::Infinite)
            } else {
                match parse_size_text(text.as_str()) {
                    Some(n) => Ok(IntOrInfinite::Int(n)),
                    None => Err(DecodeError::Format(FormatError::InvalidLimit(text.clone()))),
                }
            },
            other => Err(DecodeError::Format(FormatError::UnexpectedKind(other.kind()))),
        }
    }
}

} // verus!
