use supervisors::decode::flags::Flags;
use supervisors::decode::int_or_infinite::IntOrInfinite;
use supervisors::decode::not_used::NotUsed;
use supervisors::decode::unit::{Unit, UnitType};
use supervisors::decode::vec_or_map::VecOrMap;
use supervisors::decode::Decode;
use supervisors::error::{DecodeError, FormatError, Kind};
use supervisors::value::RawValue;

fn text(s: &str) -> RawValue {
    RawValue::String(s.to_string())
}

fn number(s: &str) -> RawValue {
    RawValue::Number(s.to_string())
}

#[test]
fn list_or_map_takes_an_empty_sequence() {
    let got = VecOrMap::<Flags>::decode(&RawValue::Array(vec![])).unwrap();
    assert!(got.0.is_empty());
}

#[test]
fn list_or_map_takes_an_empty_map() {
    let got = VecOrMap::<Flags>::decode(&RawValue::Object(vec![])).unwrap();
    assert!(got.0.is_empty());
}

#[test]
fn list_or_map_refuses_a_map_with_entries() {
    let value = RawValue::Object(vec![("a".to_string(), number("1"))]);
    let got = VecOrMap::<Flags>::decode(&value);
    assert_eq!(got.unwrap_err(), DecodeError::Format(FormatError::ExpectedEmptyMap));
}

#[test]
fn list_or_map_keeps_the_order_of_the_elements() {
    let value = RawValue::Array(vec![text("spawnable"), text("Hidden"), text("not-stackable")]);
    let got = VecOrMap::<Flags>::decode(&value).unwrap();
    assert_eq!(got.0, vec![Flags::Spawnable, Flags::Hidden, Flags::NotStackable]);
    assert_eq!(got.len(), 3);
    assert_eq!(got.first(), Some(&Flags::Spawnable));
}

#[test]
fn list_or_map_reports_the_first_element_that_fails() {
    let value = RawValue::Array(vec![text("hidden"), text("nope"), text("neither")]);
    let got = VecOrMap::<Flags>::decode(&value);
    assert_eq!(
        got.unwrap_err(),
        DecodeError::Format(FormatError::UnknownFlag("nope".to_string()))
    );
}

#[test]
fn list_or_map_refuses_a_scalar() {
    let got = VecOrMap::<Flags>::decode(&RawValue::Bool(true));
    assert_eq!(got.unwrap_err(), DecodeError::Format(FormatError::UnexpectedKind(Kind::Bool)));
}

#[test]
fn quantity_with_kilowatts() {
    let unit = Unit::decode(&text("180kW")).unwrap();
    assert_eq!(unit.amount, "180");
    assert_eq!(unit.amount.parse::<f64>().unwrap(), 180.0);
    assert_eq!(unit.unit_type, UnitType::KW);
}

#[test]
fn quantity_with_megajoules() {
    let unit = Unit::decode(&text("1.5MJ")).unwrap();
    assert_eq!(unit.amount, "1.5");
    assert_eq!(unit.amount.parse::<f64>().unwrap(), 1.5);
    assert_eq!(unit.unit_type, UnitType::MJ);
}

#[test]
fn quantity_with_an_unknown_unit_names_the_accepted_set() {
    let err = Unit::decode(&text("180XX")).unwrap_err();
    assert_eq!(err, DecodeError::Format(FormatError::UnknownUnit("XX".to_string())));
    let message = err.message();
    for label in UnitType::all() {
        assert!(message.contains(label), "{message} lacks {label}");
    }
    assert!(message.contains("XX"));
}

#[test]
fn quantity_unit_is_read_whatever_the_case_and_the_space_around_it() {
    assert_eq!(Unit::parse("2 gw ").unwrap().unit_type, UnitType::GW);
    assert_eq!(Unit::parse("7Kj").unwrap().unit_type, UnitType::KJ);
    assert_eq!(Unit::parse("7YJ").unwrap().unit_type, UnitType::YJ);
    assert_eq!(UnitType::from_str("  w"), Ok(UnitType::W));
    assert_eq!(UnitType::from_str("kWh"), Err(()));
}

#[test]
fn quantity_with_a_bad_amount() {
    for bad in ["kW", ".kW", "1.2.3MJ", "..J"] {
        let err = Unit::parse(bad).unwrap_err();
        assert!(matches!(err, DecodeError::Format(FormatError::InvalidAmount(_))), "{bad}");
    }
    assert_eq!(
        Unit::parse("1.2.3MJ").unwrap_err(),
        DecodeError::Format(FormatError::InvalidAmount("1.2.3".to_string()))
    );
    assert_eq!(Unit::parse("5.W").unwrap().amount, "5.");
    assert_eq!(Unit::parse(".5W").unwrap().amount, ".5");
}

#[test]
fn quantity_amounts_are_what_the_float_parser_takes() {
    for text in ["180kW", "1.5MJ", "5.W", ".5W", "007J"] {
        let unit = Unit::parse(text).unwrap();
        assert!(unit.amount.parse::<f32>().is_ok(), "{text}");
    }
    for prefix in ["", ".", "1.2.3", ".."] {
        assert!(prefix.parse::<f32>().is_err(), "{prefix}");
    }
}

#[test]
fn quantity_in_map_form_gives_the_same_result() {
    let map = RawValue::Object(vec![
        ("amount".to_string(), number("180")),
        ("unit_type".to_string(), text("kW")),
    ]);
    assert_eq!(Unit::decode(&map).unwrap(), Unit::decode(&text("180kW")).unwrap());
    let swapped = RawValue::Object(vec![
        ("unit_type".to_string(), text("KW")),
        ("amount".to_string(), number("180")),
    ]);
    assert_eq!(Unit::decode(&swapped).unwrap(), Unit::decode(&text("180kW")).unwrap());
}

#[test]
fn quantity_in_map_form_errors() {
    let unknown = RawValue::Object(vec![("size".to_string(), number("1"))]);
    assert_eq!(
        Unit::decode(&unknown).unwrap_err(),
        DecodeError::Format(FormatError::UnknownField("size".to_string()))
    );
    let half = RawValue::Object(vec![("amount".to_string(), number("1"))]);
    assert_eq!(Unit::decode(&half).unwrap_err(), DecodeError::Format(FormatError::MissingField));
    let wrong = RawValue::Object(vec![("amount".to_string(), text("1"))]);
    assert_eq!(
        Unit::decode(&wrong).unwrap_err(),
        DecodeError::Format(FormatError::UnexpectedKind(Kind::String))
    );
    assert_eq!(
        Unit::decode(&RawValue::Null).unwrap_err(),
        DecodeError::Format(FormatError::UnexpectedKind(Kind::Null))
    );
}

#[test]
fn flag_spellings_are_synonyms() {
    assert_eq!(Flags::from_str("only-in-cursor"), Ok(Flags::OnlyInCursor));
    assert_eq!(Flags::from_str("OnlyInCursor"), Ok(Flags::OnlyInCursor));
    assert_eq!(Flags::from_str("ONLY-IN-CURSOR"), Ok(Flags::OnlyInCursor));
    assert_eq!(Flags::from_str("onlyincursor"), Ok(Flags::OnlyInCursor));
    assert_eq!(Flags::from_str("only_in_cursor"), Err(()));
    assert_eq!(Flags::from_str(""), Err(()));
}

#[test]
fn every_flag_is_read_from_both_of_its_names() {
    let all = Flags::all();
    let names = Flags::all_names();
    assert_eq!(all.len(), 16);
    assert_eq!(names.len(), 16);
    for (flag, name) in all.iter().zip(names.iter()) {
        assert_eq!(Flags::from_str(name), Ok(*flag));
        assert_eq!(flag.name(), *name);
        assert_eq!(Flags::from_str(flag.capitalised_name()), Ok(*flag));
    }
    assert_eq!(names[0], "hidden");
    assert_eq!(names[15], "not-deconstructable");
}

#[test]
fn unknown_flag_names_the_accepted_set() {
    let err = Flags::decode(&text("shiny")).unwrap_err();
    assert_eq!(err, DecodeError::Format(FormatError::UnknownFlag("shiny".to_string())));
    let message = err.message();
    for name in Flags::all_names() {
        assert!(message.contains(name));
    }
    assert_eq!(
        Flags::decode(&number("1")).unwrap_err(),
        DecodeError::Format(FormatError::UnexpectedKind(Kind::Number))
    );
}

#[test]
fn unit_labels() {
    assert_eq!(UnitType::all(), vec!["J", "kJ", "MJ", "GJ", "YJ", "W", "kW", "MW", "GW"]);
    assert_eq!(UnitType::variants().len(), 9);
}

#[test]
fn limit_from_number_and_text() {
    assert_eq!(IntOrInfinite::decode(&number("12")).unwrap(), IntOrInfinite::Int(12));
    assert_eq!(IntOrInfinite::decode(&text("12")).unwrap(), IntOrInfinite::Int(12));
    assert_eq!(IntOrInfinite::decode(&text("infinite")).unwrap(), IntOrInfinite::Infinite);
    for word in ["0", "+7", "007", "", "+", "-1", "++1", "1 ", "Infinite", "1.0", "18446744073709551616"] {
        let expected = word.parse::<usize>().ok().map(IntOrInfinite::Int);
        assert_eq!(IntOrInfinite::decode(&text(word)).ok(), expected, "{word:?}");
    }
    assert_eq!(
        IntOrInfinite::decode(&text("many")).unwrap_err(),
        DecodeError::Format(FormatError::InvalidLimit("many".to_string()))
    );
    assert_eq!(
        IntOrInfinite::decode(&number("-1")).unwrap_err(),
        DecodeError::Format(FormatError::InvalidInteger("-1".to_string()))
    );
    assert_eq!(
        IntOrInfinite::decode(&number("1.5")).unwrap_err(),
        DecodeError::Format(FormatError::InvalidInteger("1.5".to_string()))
    );
    assert_eq!(
        IntOrInfinite::decode(&number("99999999999999999999999")).unwrap_err(),
        DecodeError::Format(FormatError::InvalidInteger("99999999999999999999999".to_string()))
    );
    assert_eq!(
        IntOrInfinite::decode(&number("18446744073709551615")).unwrap(),
        IntOrInfinite::Int(usize::MAX)
    );
}

#[test]
fn sink_walks_nested_values() {
    let value = RawValue::Object(vec![
        ("a".to_string(), RawValue::Array(vec![number("1"), text("x"), RawValue::Null])),
        (
            "b".to_string(),
            RawValue::Object(vec![("c".to_string(), RawValue::Array(vec![RawValue::Bool(true)]))]),
        ),
    ]);
    assert_eq!(NotUsed::walk(&value), 8);
    assert_eq!(NotUsed::walk(&RawValue::Null), 1);
    assert_eq!(NotUsed::decode(&value), Ok(NotUsed));
}

#[test]
fn duplicate_gives_an_equal_value() {
    let value = RawValue::Object(vec![
        ("a".to_string(), RawValue::Array(vec![number("1"), text("x"), RawValue::Null])),
        ("b".to_string(), RawValue::Bool(false)),
    ]);
    assert_eq!(value.duplicate(), value);
    assert_eq!(value.kind(), Kind::Object);
}

#[test]
fn messages_of_format_errors() {
    let cases: Vec<(FormatError, &str)> = vec![
        (FormatError::ExpectedEmptyMap, "expected an empty map"),
        (FormatError::InvalidAmount("1.2.3".to_string()), "invalid amount `1.2.3`"),
        (
            FormatError::UnknownUnit("XX".to_string()),
            "unknown unit `XX`, expected one of `J`, `kJ`, `MJ`, `GJ`, `YJ`, `W`, `kW`, `MW`, `GW`",
        ),
        (FormatError::InvalidInteger("1.5".to_string()), "invalid integer `1.5`"),
        (
            FormatError::InvalidLimit("many".to_string()),
            "invalid value `many`, expected an integer or the string \"infinite\"",
        ),
        (FormatError::UnexpectedKind(Kind::Null), "unexpected value: null"),
        (FormatError::UnexpectedKind(Kind::Bool), "unexpected value: a boolean"),
        (FormatError::UnexpectedKind(Kind::Number), "unexpected value: a number"),
        (FormatError::UnexpectedKind(Kind::String), "unexpected value: a string"),
        (FormatError::UnexpectedKind(Kind::Array), "unexpected value: a sequence"),
        (FormatError::UnexpectedKind(Kind::Object), "unexpected value: a map"),
        (
            FormatError::UnknownField("size".to_string()),
            "unknown field `size`, expected `amount` or `unit_type`",
        ),
        (FormatError::MissingField, "missing field `amount or unit_type`"),
    ];
    for (error, message) in cases {
        assert_eq!(error.message(), message);
        assert_eq!(DecodeError::Format(error).message(), message);
    }
    let message = FormatError::UnknownFlag("shiny".to_string()).message();
    assert!(message.starts_with("unknown flag `shiny`, expected one of `hidden`, `only-in-cursor`, "));
    assert!(message.ends_with(", `not-repairable`, `not-deconstructable`"));
    assert_eq!(Kind::Object.name(), "a map");
}

#[test]
fn unit_labels_are_read_as_after_trimming_and_raising_to_capitals() {
    fn reference(s: &str) -> Option<UnitType> {
        match s.trim().to_uppercase().as_str() {
            "J" => Some(UnitType::J),
            "KJ" => Some(UnitType::KJ),
            "MJ" => Some(UnitType::MJ),
            "GJ" => Some(UnitType::GJ),
            "YJ" => Some(UnitType::YJ),
            "W" => Some(UnitType::W),
            "KW" => Some(UnitType::KW),
            "MW" => Some(UnitType::MW),
            "GW" => Some(UnitType::GW),
            _ => None,
        }
    }
    let tokens = [
        "J", "kJ", "KJ", "kj", "Kj", " mj", "GJ\n", "\tyJ ", "W", "w", "kW", "KW", "mW", "gw", "", " ",
        "JJ", "k", "kWh", "k W", "\u{212a}W", "\u{212a}J", "M\u{17f}", "\u{131}J", "ｋW", "J\u{a0}",
        "\u{3000}W\u{2003}", "µW", "W.", "1W",
    ];
    for token in tokens {
        assert_eq!(UnitType::from_str(token).ok(), reference(token), "{token:?}");
    }
}
