use crate::decode::Decode;
use crate::error::{DecodeError, DecodeErrorView};
use crate::value::{entries_view, values_view, JsonValue, RawValue};
use vstd::prelude::*;

verus! {

/// Stands for a field that is known to exist and is left out of the typed model.
#[derive(Debug, Default, Clone, Copy, PartialEq, Eq, Structural)]
pub struct NotUsed;

impl View for NotUsed {
    type V = NotUsed;

    open spec fn view(&self) -> NotUsed {
        *self
    }
}

/// How many values a value holds, itself included.
pub open spec fn size_of(value: JsonValue) -> nat
    decreases value,
{
    match value {
        JsonValue::Array(items) => 1 + sizes_of(items),
        JsonValue::Object(entries) => 1 + entry_sizes_of(entries),
        _ => 1,
    }
}

/// The sizes of the values of a sequence, added up.
pub open spec fn sizes_of(items: Seq<JsonValue>) -> nat
    decreases items,
{
    if items.len() == 0 {
        0
    } else {
        sizes_of(items.drop_last()) + size_of(items.last())
    }
}

/// The sizes of the values of a sequence of entries, added up.
pub open spec fn entry_sizes_of(entries: Seq<(Seq<char>, JsonValue)>) -> nat
    decreases entries,
{
    if entries.len() == 0 {
        0
    } else {
        entry_sizes_of(entries.drop_last()) + size_of(entries.last().1)
    }
}

/// `n`, or the largest `u64` where `n` is beyond it.
pub open spec fn capped(n: nat) -> u64 {
    if n <= u64::MAX {
        n as u64
    } else {
        u64::MAX
    }
}

fn add_capped(a: u64, b: u64) -> (sum: u64)
    ensures
        sum == capped((a + b) as nat),
{
    if b > u64::MAX - a {
        u64::MAX
    } else {
        a + b
    }
}

impl NotUsed {
    /// Walks the whole of `value`, whatever its shape, and keeps nothing of it but the count
    /// of the values that it went through.
    pub fn walk(value: &RawValue) -> (walked: u64)
        ensures
            walked == capped(size_of(value@)),
        decreases value,
    {
        match value {
            RawValue::Array(items) => {
                proof {
                    RawValue::lemma_array_view(*items);
                }
                let ghost all = values_view(items@);
                let mut walked: u64 = 1;
                let mut i: usize = 0;
                while i < items.len()
                    invariant
                        i <= items.len(),
                        decreases_to!(value => items),
                        all == values_view(items@),
                        walked == capped(1 + sizes_of(all.take(i as int))),
                    decreases items.len() - i,
                {
                    assert(decreases_to!(*items => items[i as int]));
                    let inner = NotUsed::walk(&items[i]);
                    proof {
                        assert(all.take(i + 1).drop_last() =~= all.take(i as int));
                        assert(all.take(i + 1).last() == items@[i as int]@);
                    }
                    walked = add_capped(walked, inner);
                    i += 1;
                }
                assert(all.take(i as int) =~= all);
                walked
            },
            RawValue::Object(entries) => {
                proof {
                    RawValue::lemma_object_view(*entries);
                }
                let ghost all = entries_view(entries@);
                let mut walked: u64 = 1;
                let mut i: usize = 0;
                while i < entries.len()
                    invariant
                        i <= entries.len(),
                        decreases_to!(value => entries),
                        all == entries_view(entries@),
                        walked == capped(1 + entry_sizes_of(all.take(i as int))),
                    decreases entries.len() - i,
                {
                    assert(decreases_to!(*entries => entries[i as int]));
                    assert(decreases_to!(entries[i as int] => entries[i as int].1));
                    let inner = NotUsed::walk(&entries[i].1);
                    proof {
                        assert(all.take(i + 1).drop_last() =~= all.take(i as int));
                        assert(all.take(i + 1).last().1 == entries@[i as int].1@);
                    }
                    walked = add_capped(walked, inner);
                    i += 1;
                }
                assert(all.take(i as int) =~= all);
                walked
            },
            _ => 1,
        }
    }
}

impl Decode for NotUsed {
    /// Every value is accepted.
    open spec fn decoded(value: JsonValue) -> Result<NotUsed, DecodeErrorView> {
        Ok(NotUsed)
    }

    /// Walks the whole of `value` and discards it.
    fn decode(value: &RawValue) -> (got: Result<NotUsed, DecodeError>) {
        let _ = NotUsed::walk(value);
        Ok(NotUsed)
    }
}

} // verus!
