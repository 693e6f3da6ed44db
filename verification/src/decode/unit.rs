use crate::decode::Decode;
use crate::error::{DecodeError, DecodeErrorView, FormatError, FormatErrorView};
use crate::text::{
    char_is_digit, chars_of, count_of, eq_ignoring_case, is_digit, leading_run,
    lemma_leading_run_is, same_ignoring_case, same_text, slice_of, trim_bounds, trimmed,
};
use crate::value::{entries_view, json_of, kind_of, JsonValue, RawValue};
use vstd::prelude::*;
use vstd::string::StrSliceExecFns;

verus! {

/// The units of energy and of power that a quantity may carry.
#[derive(Debug, Copy, Clone, PartialEq, Eq, Structural)]
pub enum UnitType {
    J,
    KJ,
    MJ,
    GJ,
    YJ,
    W,
    KW,
    MW,
    GW,
}

/// Every unit, in the order of declaration.
pub open spec fn all_units() -> Seq<UnitType> {
    seq![
        UnitType::J,
        UnitType::KJ,
        UnitType::MJ,
        UnitType::GJ,
        UnitType::YJ,
        UnitType::W,
        UnitType::KW,
        UnitType::MW,
        UnitType::GW,
    ]
}

/// The label under which a unit is written.
pub open spec fn label_of(unit: UnitType) -> Seq<char> {
    match unit {
        UnitType::J => "J"@,
        UnitType::KJ => "kJ"@,
        UnitType::MJ => "MJ"@,
        UnitType::GJ => "GJ"@,
        UnitType::YJ => "YJ"@,
        UnitType::W => "W"@,
        UnitType::KW => "kW"@,
        UnitType::MW => "MW"@,
        UnitType::GW => "GW"@,
    }
}

/// The first unit from position `from` of [`all_units`] whose label is `token` up to case.
pub open spec fn first_labelled(token: Seq<char>, from: int) -> Option<UnitType>
    decreases all_units().len() - from,
{
    if from < 0 || from >= all_units().len() {
        None
    } else if same_ignoring_case(token, label_of(all_units()[from])) {
        Some(all_units()[from])
    } else {
        first_labelled(token, from + 1)
    }
}

/// The unit that `token` names once the white space around it is gone, if it names one.
pub open spec fn unit_named(token: Seq<char>) -> Option<UnitType> {
    first_labelled(trimmed(token), 0)
}

/// A digit or the decimal point.
pub open spec fn is_amount_char(c: char) -> bool {
    is_digit(c) || c == '.'
}

/// Whether a text made of digits and points is a decimal number: it has a digit, and at most
/// one point.
pub open spec fn is_amount(text: Seq<char>) -> bool {
    count_of(text, |c: char| is_digit(c)) >= 1 && count_of(text, |c: char| c == '.') <= 1
}

/// An amount with its unit. The amount is kept as the decimal literal that was read.
#[derive(Debug, Clone, PartialEq, Eq)]
pub struct Unit {
    pub amount: String,
    pub unit_type: UnitType,
}

/// The mathematical content of a [`Unit`].
pub struct UnitView {
    pub amount: Seq<char>,
    pub unit_type: UnitType,
}

impl View for Unit {
    type V = UnitView;

    open spec fn view(&self) -> UnitView {
        UnitView { amount: self.amount@, unit_type: self.unit_type }
    }
}

/// What a quantity written as one string decodes to: the text is split before the first
/// character that is neither a digit nor a point.
pub open spec fn quantity_parsed(text: Seq<char>) -> Result<UnitView, DecodeErrorView> {
    let split = leading_run(text, |c: char| is_amount_char(c)) as int;
    let prefix = text.take(split);
    let suffix = text.skip(split);
    if !is_amount(prefix) {
        Err(DecodeErrorView::Format(FormatErrorView::InvalidAmount(prefix)))
    } else {
        match unit_named(suffix) {
            Some(unit_type) => Ok(UnitView { amount: prefix, unit_type }),
            None => Err(DecodeErrorView::Format(FormatErrorView::UnknownUnit(trimmed(suffix)))),
        }
    }
}

/// What a quantity written as a map decodes to, from entry `from` on, with what the entries
/// before it gave.
pub open spec fn quantity_fields(
    entries: Seq<(Seq<char>, JsonValue)>,
    from: int,
    amount: Option<Seq<char>>,
    unit_type: Option<UnitType>,
) -> Result<UnitView, DecodeErrorView>
    decreases entries.len() - from,
{
    if from < 0 || from >= entries.len() {
        match (amount, unit_type) {
            (Some(amount), Some(unit_type)) => Ok(UnitView { amount, unit_type }),
            _ => Err(DecodeErrorView::Format(FormatErrorView::MissingField)),
        }
    } else {
        let key = entries[from].0;
        let value = entries[from].1;
        if key == "amount"@ {
            match value {
                JsonValue::Number(literal) => quantity_fields(
                    entries,
                    from + 1,
                    Some(literal),
                    unit_type,
                ),
                other => Err(
                    DecodeErrorView::Format(FormatErrorView::UnexpectedKind(kind_of(other))),
                ),
            }
        } else if key == "unit_type"@ {
            match value {
                JsonValue::String(token) => match unit_named(token) {
                    Some(unit) => quantity_fields(entries, from + 1, amount, Some(unit)),
                    None => Err(
                        DecodeErrorView::Format(FormatErrorView::UnknownUnit(trimmed(token))),
                    ),
                },
                other => Err(
                    DecodeErrorView::Format(FormatErrorView::UnexpectedKind(kind_of(other))),
                ),
            }
        } else {
            Err(DecodeErrorView::Format(FormatErrorView::UnknownField(key)))
        }
    }
}

/// What decoding a value as a quantity gives.
pub open spec fn unit_decoded(value: JsonValue) -> Result<UnitView, DecodeErrorView> {
    match value {
        JsonValue::String(text) => quantity_parsed(text),
        JsonValue::Object(entries) => quantity_fields(entries, 0, None, None),
        other => Err(DecodeErrorView::Format(FormatErrorView::UnexpectedKind(kind_of(other)))),
    }
}

impl UnitType {
    /// The label of every unit, in the order of declaration: the accepted set that an error
    /// about an unknown unit names.
    pub fn all() -> (labels: Vec<&'static str>)
        ensures
            labels@.len() == all_units().len(),
            forall|i: int| 0 <= i < labels@.len() ==> (#[trigger] labels@[i])@ == label_of(all_units()[i]),
    {
        let labels = vec!["J", "kJ", "MJ", "GJ", "YJ", "W", "kW", "MW", "GW"];
        assert(labels@.len() == 9);
        labels
    }

    /// Every unit, in the order of declaration.
    pub fn variants() -> (units: Vec<UnitType>)
        ensures
            units@ == all_units(),
    {
        let units = vec![
            UnitType::J,
            UnitType::KJ,
            UnitType::MJ,
            UnitType::GJ,
            UnitType::YJ,
            UnitType::W,
            UnitType::KW,
            UnitType::MW,
            UnitType::GW,
        ];
        assert(units@ =~= all_units());
        units
    }

    /// Reads a unit from its label, whatever the case of the letters and the white space
    /// around it.
    pub fn from_str(s: &str) -> (parsed: Result<UnitType, ()>)
        ensures
            parsed == match unit_named(s@) {
                Some(unit) => Ok::<UnitType, ()>(unit),
                None => Err::<UnitType, ()>(()),
            },
    {
        let whole = chars_of(s);
        let (start, end) = trim_bounds(&whole);
        let token = slice_of(&whole, start, end);
        let units = UnitType::variants();
        let labels = UnitType::all();
        let mut i: usize = 0;
        while i < units.len()
            invariant
                i <= units.len(),
                units@ == all_units(),
                labels@.len() == all_units().len(),
                forall|j: int| 0 <= j < labels@.len() ==> (#[trigger] labels@[j])@ == label_of(all_units()[j]),
                token@ == trimmed(s@),
                unit_named(s@) == first_labelled(trimmed(s@), i as int),
            decreases units.len() - i,
        {
            let label = chars_of(labels[i]);
            if eq_ignoring_case(&token, &label) {
                return Ok(units[i]);
            }
            i += 1;
        }
        Err(())
    }
}

impl Unit {
    /// Reads a quantity written as one string, such as `180kW`.
    pub fn parse(text: &str) -> (parsed: Result<Unit, DecodeError>)
        ensures
            match parsed {
                Ok(unit) => quantity_parsed(text@) == Ok::<UnitView, DecodeErrorView>(unit@),
                Err(e) => quantity_parsed(text@) == Err::<UnitView, DecodeErrorView>(e@),
            },
    {
        let chars = chars_of(text);
        let mut split: usize = 0;
        let mut digits: usize = 0;
        let mut points: usize = 0;
        while split < chars.len() && (char_is_digit(chars[split]) || chars[split] == '.')
            invariant
                split <= chars.len(),
                digits <= split,
                points <= split,
                forall|i: int| 0 <= i < split ==> is_amount_char(#[trigger] chars@[i]),
                digits == count_of(chars@.take(split as int), |c: char| is_digit(c)),
                points == count_of(chars@.take(split as int), |c: char| c == '.'),
            decreases chars.len() - split,
        {
            proof {
                assert(chars@.take(split + 1).drop_last() =~= chars@.take(split as int));
            }
            if char_is_digit(chars[split]) {
                digits += 1;
            } else {
                points += 1;
            }
            split += 1;
        }
        proof {
            lemma_leading_run_is(chars@, |c: char| is_amount_char(c), split as int);
        }
        let prefix = text.substring_char(0, split);
        let suffix = text.substring_char(split, chars.len());
        assert(prefix@ =~= text@.take(split as int));
        assert(suffix@ =~= text@.skip(split as int));
        if digits < 1 || points > 1 {
            return Err(DecodeError::Format(FormatError::InvalidAmount(prefix.to_owned())));
        }
        match UnitType::from_str(suffix) {
            Ok(unit_type) => Ok(Unit { amount: prefix.to_owned(), unit_type }),
            Err(_) => {
                let tail = chars_of(suffix);
                let (start, end) = trim_bounds(&tail);
                let token = suffix.substring_char(start, end);
                Err(DecodeError::Format(FormatError::UnknownUnit(token.to_owned())))
            },
        }
    }

}

impl Decode for Unit {
    open spec fn decoded(value: JsonValue) -> Result<UnitView, DecodeErrorView> {
        unit_decoded(value)
    }

    /// Decodes a quantity from a string such as `180kW`, or from a map with the keys `amount`
    /// and `unit_type`.
    fn decode(value: &RawValue) -> (got: Result<Unit, DecodeError>) {
        match value {
            RawValue::String(text) => Unit::parse(text.as_str()),
            RawValue::Object(entries) => {
                proof {
                    RawValue::lemma_object_view(*entries);
                }
                let ghost all = entries_view(entries@);
                let mut amount: Option<String> = None;
                let mut unit_type: Option<UnitType> = None;
                let mut i: usize = 0;
                while i < entries.len()
                    invariant
                        i <= entries.len(),
                        all == entries_view(entries@),
                        value@ == JsonValue::Object(all),
                        quantity_fields(all, 0, None, None) == quantity_fields(
                            all,
                            i as int,
                            match amount {
                                Some(a) => Some(a@),
                                None => None,
                            },
                            unit_type,
                        ),
                    decreases entries.len() - i,
                {
                    let key = entries[i].0.as_str();
                    assert(all[i as int] == (entries@[i as int].0@, entries@[i as int].1@));
                    if same_text(key, "amount") {
                        match &entries[i].1 {
                            RawValue::Number(literal) => {
                                amount = Some(literal.clone());
                            },
                            other => {
                                return Err(
                                    DecodeError::Format(FormatError::UnexpectedKind(other.kind())),
                                );
                            },
                        }
                    } else if same_text(key, "unit_type") {
                        match &entries[i].1 {
                            RawValue::String(token) => match UnitType::from_str(token.as_str()) {
                                Ok(unit) => {
                                    unit_type = Some(unit);
                                },
                                Err(_) => {
                                    let tail = chars_of(token.as_str());
                                    let (start, end) = trim_bounds(&tail);
                                    let name = token.as_str().substring_char(start, end);
                                    return Err(
                                        DecodeError::Format(
                                            FormatError::UnknownUnit(name.to_owned()),
                                        ),
                                    );
                                },
                            },
                            other => {
                                return Err(
                                    DecodeError::Format(FormatError::UnexpectedKind(other.kind())),
                                );
                            },
                        }
                    } else {
                        return Err(
                            DecodeError::Format(FormatError::UnknownField(entries[i].0.clone())),
                        );
                    }
                    i += 1;
                }
                match (amount, unit_type) {
                    (Some(amount), Some(unit_type)) => Ok(Unit { amount, unit_type }),
                    _ => Err(DecodeError::Format(FormatError::MissingField)),
                }
            },
            other => Err(DecodeError::Format(FormatError::UnexpectedKind(other.kind()))),
        }
    }
}

/// The map form of a quantity decodes to what the string form does: a map with the amount of
/// a quantity as a number under `amount`, and a label of its unit under `unit_type`, gives the
/// quantity.
pub proof fn lemma_map_form_decodes_alike(text: Seq<char>, unit: UnitView, label: Seq<char>)
    requires
        quantity_parsed(text) == Ok::<UnitView, DecodeErrorView>(unit),
        unit_named(label) == Some(unit.unit_type),
    ensures
        unit_decoded(
            JsonValue::Object(
                seq![
                    ("amount"@, JsonValue::Number(unit.amount)),
                    ("unit_type"@, JsonValue::String(label)),
                ],
            ),
        ) == Ok::<UnitView, DecodeErrorView>(unit),
        unit_decoded(
            JsonValue::Object(
                seq![
                    ("unit_type"@, JsonValue::String(label)),
                    ("amount"@, JsonValue::Number(unit.amount)),
                ],
            ),
        ) == Ok::<UnitView, DecodeErrorView>(unit),
{
    reveal_strlit("amount");
    reveal_strlit("unit_type");
    assert("amount"@.len() != "unit_type"@.len());
    reveal_with_fuel(quantity_fields, 3);
}

/// Every unit is named by its own label.
pub proof fn lemma_labels_name_their_units(unit: UnitType)
    ensures
        unit_named(label_of(unit)) == Some(unit),
{
    reveal_strlit("J");
    reveal_strlit("kJ");
    reveal_strlit("MJ");
    reveal_strlit("GJ");
    reveal_strlit("YJ");
    reveal_strlit("W");
    reveal_strlit("kW");
    reveal_strlit("MW");
    reveal_strlit("GW");
    let label = label_of(unit);
    let space = |c: char| crate::text::is_space(c);
    assert(label.len() >= 1);
    assert(!crate::text::is_space(label[0]));
    assert(!crate::text::is_space(label.last()));
    assert(crate::text::leading_run(label, space) == 0);
    assert(label.skip(0) =~= label);
    assert(crate::text::trailing_run(label, space) == 0);
    assert(label.take(label.len() as int) =~= label);
    assert(trimmed(label) == label);
    reveal_with_fuel(first_labelled, 10);
    assert(same_ignoring_case(label, label));
    assert(first_labelled(label, 0) == Some(unit));
}

} // verus!
