use supervisors::decode::fluid_boxes::{key_is_index, FluidBoxes};
use supervisors::decode::flags::Flags;
use supervisors::decode::not_used::NotUsed;
use supervisors::decode::prerequisites::Prerequisites;
use supervisors::decode::Decode;
use supervisors::error::{DecodeError, FormatError, Kind};
use supervisors::gfx::{Color, Paint};
use supervisors::graph::{Connection, Hover, NodeId, SocketPos};
use supervisors::order::text_le;
use supervisors::selector;
use supervisors::table::Table;
use supervisors::text::{chars_of, eq_ignoring_case, parse_unsigned, same_text, trim_bounds};
use supervisors::value::RawValue;

fn text(s: &str) -> RawValue {
    RawValue::String(s.to_string())
}

#[test]
fn colours_and_paints() {
    assert_eq!(Color::rgb(1, 2, 3), Color { r: 1, g: 2, b: 3, a: 255 });
    let paint = Paint::color(Color::rgb(9, 8, 7));
    assert_eq!(paint.color, Color::rgb(9, 8, 7));
    assert_eq!(paint.line_width, None);
    assert_eq!(paint.font_size, None);
    let paint = paint.with_line_width(3).with_font_size(12);
    assert_eq!(paint.line_width, Some(3));
    assert_eq!(paint.font_size, Some(12));
    assert_eq!(paint.color, Color::rgb(9, 8, 7));
}

#[test]
fn connections_and_hover() {
    let a = SocketPos::from((NodeId(1), 0, true));
    let b = SocketPos { node_id: NodeId(2), socket_index: 1, input: false };
    let c = SocketPos { node_id: NodeId(2), socket_index: 1, input: true };
    let line = Connection { src: a, dst: b };
    assert!(line.has_socket(a));
    assert!(line.has_socket(b));
    assert!(!line.has_socket(c));
    assert!(Hover::Node(NodeId(4)).should_highlight_node(NodeId(4)));
    assert!(!Hover::Node(NodeId(4)).should_highlight_node(NodeId(5)));
    assert!(!Hover::Nothing.should_highlight_node(NodeId(4)));
    let over = Hover::NodeSocket { node: NodeId(4), socket: 2, input: true };
    assert_eq!(over.get_highlight_socket(NodeId(4)), Some((2, true)));
    assert_eq!(over.get_highlight_socket(NodeId(3)), None);
    assert_eq!(Hover::Node(NodeId(4)).get_highlight_socket(NodeId(4)), None);
    assert!(selector::Hover::Tab { tab_idx: 2 }.is_tab(2));
    assert!(!selector::Hover::Tab { tab_idx: 2 }.is_tab(3));
    assert!(!selector::Hover::Nothing.is_tab(0));
    assert!(!selector::Hover::Item { row_idx: 0, item_idx: 0 }.is_tab(0));
}

#[test]
fn prerequisites_from_a_sequence_and_from_a_map() {
    let list = RawValue::Array(vec![text("steel"), text("oil"), text("steel")]);
    let got = Prerequisites::decode(&list).unwrap();
    assert_eq!(got.prerequisites.len(), 2);
    assert!(got.prerequisites.find("steel").is_some());
    assert!(got.prerequisites.find("oil").is_some());
    assert!(got.prerequisites.find("coal").is_none());
    let map = RawValue::Object(vec![
        ("1".to_string(), text("oil")),
        ("2".to_string(), text("steel")),
        ("3".to_string(), text("oil")),
    ]);
    let got = Prerequisites::decode(&map).unwrap();
    assert_eq!(got.prerequisites.len(), 2);
    assert!(got.prerequisites.find("1").is_none());
    assert!(got.prerequisites.find("steel").is_some());
    assert_eq!(Prerequisites::decode(&RawValue::Object(vec![])).unwrap().prerequisites.len(), 0);
    assert_eq!(
        Prerequisites::decode(&RawValue::Array(vec![text("a"), RawValue::Null])).unwrap_err(),
        DecodeError::Format(FormatError::UnexpectedKind(Kind::Null))
    );
    assert_eq!(
        Prerequisites::decode(&text("a")).unwrap_err(),
        DecodeError::Format(FormatError::UnexpectedKind(Kind::String))
    );
}

#[test]
fn fluid_boxes_from_a_sequence_and_from_a_map() {
    let list = RawValue::Array(vec![text("hidden"), text("spawnable")]);
    let got = FluidBoxes::<Flags>::decode(&list).unwrap();
    assert_eq!(got.boxes, vec![Flags::Hidden, Flags::Spawnable]);
    assert!(!got.off_when_no_fluid_recipe);
    let map = RawValue::Object(vec![
        ("1".to_string(), text("hidden")),
        ("off_when_no_fluid_recipe".to_string(), RawValue::Bool(true)),
        ("-2".to_string(), text("spawnable")),
    ]);
    let got = FluidBoxes::<Flags>::decode(&map).unwrap();
    assert_eq!(got.boxes, vec![Flags::Hidden, Flags::Spawnable]);
    assert!(got.off_when_no_fluid_recipe);
    let bad = RawValue::Object(vec![("first".to_string(), text("hidden"))]);
    assert_eq!(
        FluidBoxes::<Flags>::decode(&bad).unwrap_err(),
        DecodeError::Format(FormatError::UnknownField("first".to_string()))
    );
    let bad = RawValue::Object(vec![("off_when_no_fluid_recipe".to_string(), text("yes"))]);
    assert_eq!(
        FluidBoxes::<NotUsed>::decode(&bad).unwrap_err(),
        DecodeError::Format(FormatError::UnexpectedKind(Kind::String))
    );
    let none = FluidBoxes::<NotUsed>::default();
    assert!(none.boxes.is_empty() && !none.off_when_no_fluid_recipe);
}

#[test]
fn index_keys_are_what_parses_as_an_integer_of_32_bits() {
    for key in ["0", "1", "+1", "-1", "007", "2147483647", "-2147483648", "+2147483647", "", "+", "-", "1.0", " 1", "2147483648", "-2147483649", "a", "1a", "--1"] {
        assert_eq!(key_is_index(key), key.parse::<i32>().is_ok(), "{key:?}");
    }
}

#[test]
fn text_helpers() {
    assert_eq!(chars_of("héllo"), vec!['h', 'é', 'l', 'l', 'o']);
    assert!(same_text("abc", "abc"));
    assert!(!same_text("abc", "abd"));
    assert!(!same_text("abc", "ab"));
    assert!(eq_ignoring_case(&chars_of("kW"), &chars_of("Kw")));
    assert!(!eq_ignoring_case(&chars_of("kW"), &chars_of("kV")));
    for s in ["  a b\t\n", "", "   ", "x", "\u{a0}x\u{3000}", " \u{2003}y z \u{85}"] {
        let chars = chars_of(s);
        let (from, to) = trim_bounds(&chars);
        let got: String = chars[from..to].iter().collect();
        assert_eq!(got, s.trim(), "{s:?}");
    }
    assert_eq!(parse_unsigned(&chars_of("x42"), 1, 100), Some(42));
    assert_eq!(parse_unsigned(&chars_of("101"), 0, 100), None);
    assert_eq!(parse_unsigned(&chars_of("100"), 0, 100), Some(100));
    assert_eq!(parse_unsigned(&chars_of(""), 0, 100), None);
    assert_eq!(parse_unsigned(&chars_of("18446744073709551615"), 0, u64::MAX), Some(u64::MAX));
    assert_eq!(parse_unsigned(&chars_of("18446744073709551616"), 0, u64::MAX), None);
}

#[test]
fn strings_are_ordered_as_the_standard_library_orders_them() {
    let words = ["", "a", "ab", "b", "B", "é", "z", "ab ", "aa", "\u{10000}", "\u{ffff}", "日本"];
    for x in words {
        for y in words {
            assert_eq!(text_le(&chars_of(x), &chars_of(y)), x <= y, "{x:?} {y:?}");
        }
    }
}

#[test]
fn table_keeps_one_entry_for_each_name() {
    let mut table: Table<u32> = Table::new();
    assert_eq!(table.len(), 0);
    table.insert("b".to_string(), 1);
    table.insert("a".to_string(), 2);
    table.insert("b".to_string(), 3);
    assert_eq!(table.len(), 2);
    assert_eq!(table.find("b"), Some(0));
    assert_eq!(table.find("a"), Some(1));
    assert_eq!(table.find("c"), None);
    assert_eq!(table.get("b"), Some(&3));
    assert_eq!(table.get("c"), None);
    assert_eq!(table.name_at(1), "a");
    assert_eq!(table.value_at(0), &3);
}
