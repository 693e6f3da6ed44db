use supervisors::decode::vec_or_map::VecOrMap;
use supervisors::decode::Decode;
use supervisors::error::{DecodeError, FormatError, Kind, SchemaViolation};
use supervisors::record::{ElementDecoder, FieldValue, Schema};
use supervisors::records::{
    aliased_field, plain_field, Fluid, Item, ItemGroup, ItemSubgroup, Recipe, RecipeIngredient,
    RecipeResult,
};
use supervisors::root::{decode_category, Groupable, Root};
use supervisors::value::RawValue;

fn text(s: &str) -> RawValue {
    RawValue::String(s.to_string())
}

fn number(s: &str) -> RawValue {
    RawValue::Number(s.to_string())
}

fn object(entries: Vec<(&str, RawValue)>) -> RawValue {
    RawValue::Object(entries.into_iter().map(|(k, v)| (k.to_string(), v)).collect())
}

fn stack_schema() -> Schema {
    Schema {
        record: "Stack".to_string(),
        fields: vec![
            plain_field("name", true, ElementDecoder::Text),
            aliased_field("stack_size", "stack-size", true, ElementDecoder::Size),
            plain_field("order", false, ElementDecoder::Text),
        ],
    }
}

#[test]
fn struct_decoder_names_the_missing_field() {
    let err = stack_schema().decode(&object(vec![("name", text("foo"))])).unwrap_err();
    assert_eq!(
        err,
        DecodeError::Schema(SchemaViolation {
            record: "Stack".to_string(),
            missing: vec!["stack_size".to_string()],
            remaining: vec![],
        })
    );
    assert!(err.is_schema_violation());
    assert_eq!(
        err.message(),
        "Missing fields 'stack_size' in struct Stack, should this be made optional? Keys in remaining: []"
    );
}

#[test]
fn struct_decoder_keeps_what_it_does_not_know() {
    let value = object(vec![
        ("name", text("foo")),
        ("stack_size", number("1")),
        ("extra", RawValue::Bool(true)),
    ]);
    let fields = stack_schema().decode(&value).unwrap();
    assert!(matches!(&fields.values[0], Some(FieldValue::Text(t)) if t == "foo"));
    assert!(matches!(&fields.values[1], Some(FieldValue::Size(1))));
    assert!(fields.values[2].is_none());
    assert_eq!(fields.remaining.len(), 1);
    assert_eq!(fields.remaining.get("extra"), Some(&RawValue::Bool(true)));
    assert_eq!(fields.remaining.get("name"), None);
}

#[test]
fn struct_decoder_names_every_missing_field_and_the_remaining_keys() {
    let value = object(vec![("colour", text("red")), ("order", text("a")), ("size", number("2"))]);
    let err = stack_schema().decode(&value).unwrap_err();
    assert_eq!(
        err,
        DecodeError::Schema(SchemaViolation {
            record: "Stack".to_string(),
            missing: vec!["name".to_string(), "stack_size".to_string()],
            remaining: vec!["colour".to_string(), "size".to_string()],
        })
    );
    assert_eq!(
        err.message(),
        "Missing fields 'name', 'stack_size' in struct Stack, should these be made optional? Keys in remaining: [\"colour\", \"size\"]"
    );
}

#[test]
fn struct_decoder_reads_either_spelling() {
    let dashed = object(vec![("name", text("foo")), ("stack-size", number("7"))]);
    let underscored = object(vec![("name", text("foo")), ("stack_size", number("7"))]);
    let a = stack_schema().decode(&dashed).unwrap();
    let b = stack_schema().decode(&underscored).unwrap();
    assert!(matches!(&a.values[1], Some(FieldValue::Size(7))));
    assert!(matches!(&b.values[1], Some(FieldValue::Size(7))));
    assert_eq!(a.remaining.len(), 0);
    assert_eq!(b.remaining.len(), 0);
    assert_eq!(stack_schema().find_field("stack-size"), Some(1));
    assert_eq!(stack_schema().find_field("stack_size"), Some(1));
    assert_eq!(stack_schema().find_field("stacksize"), None);
}

#[test]
fn reserved_word_field_is_read_under_its_spellings() {
    let schema = Schema {
        record: "Typed".to_string(),
        fields: vec![
            supervisors::record::FieldSpec {
                name: "type".to_string(),
                aliases: vec!["ty".to_string(), "type-".to_string(), "type_".to_string()],
                required: true,
                decoder: ElementDecoder::Text,
            },
        ],
    };
    for key in ["type", "ty", "type-", "type_"] {
        let fields = schema.decode(&object(vec![(key, text("item"))])).unwrap();
        assert!(matches!(&fields.values[0], Some(FieldValue::Text(t)) if t == "item"), "{key}");
        assert_eq!(fields.remaining.len(), 0);
    }
}

#[test]
fn struct_decoder_last_write_wins() {
    let value = object(vec![
        ("name", text("first")),
        ("stack_size", number("1")),
        ("name", text("second")),
        ("stack-size", number("2")),
        ("extra", number("1")),
        ("other", number("5")),
        ("extra", number("2")),
    ]);
    let fields = stack_schema().decode(&value).unwrap();
    assert!(matches!(&fields.values[0], Some(FieldValue::Text(t)) if t == "second"));
    assert!(matches!(&fields.values[1], Some(FieldValue::Size(2))));
    assert_eq!(fields.remaining.len(), 2);
    assert_eq!(fields.remaining.get("extra"), Some(&number("2")));
    assert_eq!(fields.remaining.name_at(0), "extra");
    assert_eq!(fields.remaining.name_at(1), "other");
    assert_eq!(fields.remaining.find("other"), Some(1));
    assert_eq!(fields.remaining.value_at(1), &number("5"));
}

#[test]
fn struct_decoder_passes_on_the_error_of_a_field() {
    let value = object(vec![("name", text("foo")), ("stack_size", text("many"))]);
    let err = stack_schema().decode(&value).unwrap_err();
    assert_eq!(err, DecodeError::Format(FormatError::UnexpectedKind(Kind::String)));
    assert!(err.is_format());
    let value = object(vec![("stack_size", number("1.5")), ("name", number("1"))]);
    assert_eq!(
        stack_schema().decode(&value).unwrap_err(),
        DecodeError::Format(FormatError::InvalidInteger("1.5".to_string()))
    );
    assert_eq!(
        stack_schema().decode(&RawValue::Array(vec![])).unwrap_err(),
        DecodeError::Format(FormatError::UnexpectedKind(Kind::Array))
    );
}

#[test]
fn null_leaves_an_optional_field_absent() {
    let value = object(vec![
        ("order", text("a")),
        ("name", text("foo")),
        ("stack_size", number("1")),
        ("order", RawValue::Null),
    ]);
    let fields = stack_schema().decode(&value).unwrap();
    assert!(fields.values[2].is_none());
    let value = object(vec![("name", RawValue::Null), ("stack_size", number("1"))]);
    assert_eq!(
        stack_schema().decode(&value).unwrap_err(),
        DecodeError::Format(FormatError::UnexpectedKind(Kind::Null))
    );
}

#[test]
fn every_element_decoder() {
    let cases = vec![
        (ElementDecoder::Text, text("a")),
        (ElementDecoder::Number, number("1.5e3")),
        (ElementDecoder::Size, number("42")),
        (ElementDecoder::Byte, number("255")),
        (ElementDecoder::Bool, RawValue::Bool(true)),
        (ElementDecoder::Unit, text("10MW")),
        (ElementDecoder::Flags, RawValue::Array(vec![text("hidden")])),
        (ElementDecoder::Limit, text("infinite")),
        (ElementDecoder::NotUsed, RawValue::Array(vec![RawValue::Null])),
    ];
    for (decoder, value) in cases {
        assert!(decoder.apply(&value).is_ok(), "{decoder:?}");
    }
    assert!(matches!(ElementDecoder::Byte.apply(&number("255")), Ok(FieldValue::Byte(255))));
    assert_eq!(
        ElementDecoder::Byte.apply(&number("256")).unwrap_err(),
        DecodeError::Format(FormatError::InvalidInteger("256".to_string()))
    );
    assert_eq!(
        ElementDecoder::Bool.apply(&number("1")).unwrap_err(),
        DecodeError::Format(FormatError::UnexpectedKind(Kind::Number))
    );
}

#[test]
fn recipe_ingredient() {
    let value = object(vec![
        ("type", text("item")),
        ("name", text("iron-plate")),
        ("amount", number("2")),
        ("catalyst-amount", number("0.5")),
        ("ignored_by_stats", number("3")),
        ("quality", text("normal")),
    ]);
    let got = RecipeIngredient::decode(&value).unwrap();
    assert_eq!(got.ty, "item");
    assert_eq!(got.name, "iron-plate");
    assert_eq!(got.amount, "2");
    assert_eq!(got.catalyst_amount.as_deref(), Some("0.5"));
    assert_eq!(got.minimum_temperature, None);
    assert_eq!(got.ignored_by_stats, Some(3));
    assert_eq!(got.remaining.get("quality"), Some(&text("normal")));
    assert_eq!(RecipeIngredient::schema().fields.len(), 8);
}

#[test]
fn recipe_ingredient_without_its_amount() {
    let value = object(vec![("type", text("item")), ("name", text("iron-plate")), ("ty", text("x"))]);
    let err = RecipeIngredient::decode(&value).unwrap_err();
    assert_eq!(
        err,
        DecodeError::Schema(SchemaViolation {
            record: "RecipeIngredient".to_string(),
            missing: vec!["amount".to_string()],
            remaining: vec!["ty".to_string()],
        })
    );
}

#[test]
fn recipe_result() {
    let value = object(vec![
        ("type", text("fluid")),
        ("name", text("water")),
        ("amount_min", number("1")),
        ("amount-max", number("4")),
        ("fluidbox_index", number("2")),
        ("ignored-by-productivity", number("9")),
    ]);
    let got = RecipeResult::decode(&value).unwrap();
    assert_eq!(got.ty, "fluid");
    assert_eq!(got.amount, None);
    assert_eq!(got.amount_min.as_deref(), Some("1"));
    assert_eq!(got.amount_max.as_deref(), Some("4"));
    assert_eq!(got.fluidbox_index, Some(2));
    assert_eq!(got.ignored_by_productivity, Some(9));
    assert_eq!(got.remaining.len(), 0);
    let bad = object(vec![
        ("type", text("fluid")),
        ("name", text("water")),
        ("fluidbox_index", number("300")),
    ]);
    assert_eq!(
        RecipeResult::decode(&bad).unwrap_err(),
        DecodeError::Format(FormatError::InvalidInteger("300".to_string()))
    );
}

#[test]
fn dump_records() {
    let item = Item::decode(&object(vec![
        ("name", text("coal")),
        ("subgroup", text("raw")),
        ("order", text("b")),
        ("stack_size", number("50")),
    ]))
    .unwrap();
    assert_eq!(item.name, "coal");
    assert_eq!(item.subgroup().map(|s| s.as_str()), Some("raw"));
    assert_eq!(item.order().map(|s| s.as_str()), Some("b"));
    assert_eq!(item.group(), None);
    assert_eq!(item.category, None);
    assert_eq!(item.remaining.get("stack_size"), Some(&number("50")));
    let fluid = Fluid::decode(&object(vec![("name", text("water")), ("group", text("fluids"))])).unwrap();
    assert_eq!(fluid.group().map(|s| s.as_str()), Some("fluids"));
    assert_eq!(fluid.subgroup(), None);
    assert_eq!(fluid.order(), None);
    let recipe = Recipe::decode(&object(vec![("name", text("gear")), ("category", text("crafting"))])).unwrap();
    assert_eq!(recipe.category.as_deref(), Some("crafting"));
    assert_eq!(recipe.group(), None);
    assert_eq!(recipe.subgroup(), None);
    assert_eq!(recipe.order(), None);
    let group = ItemGroup::decode(&object(vec![("name", text("logistics")), ("order", text("a"))])).unwrap();
    assert_eq!(group.order, "a");
    let subgroup = ItemSubgroup::decode(&object(vec![
        ("name", text("belt")),
        ("order", text("b")),
        ("group", text("logistics")),
    ]))
    .unwrap();
    assert_eq!(subgroup.group, "logistics");
    assert!(ItemSubgroup::decode(&object(vec![("name", text("belt"))])).is_err());
}

#[test]
fn category_keeps_the_later_of_two_records() {
    let value = object(vec![
        ("coal", object(vec![("name", text("coal")), ("order", text("a"))])),
        ("wood", object(vec![("name", text("wood"))])),
        ("coal", object(vec![("name", text("coal")), ("order", text("z"))])),
    ]);
    let table = decode_category::<Item>(&value).unwrap();
    assert_eq!(table.len(), 2);
    assert_eq!(table.name_at(0), "coal");
    assert_eq!(table.get("coal").unwrap().order.as_deref(), Some("z"));
    assert!(decode_category::<Item>(&RawValue::Null).is_err());
    let bad = object(vec![("coal", object(vec![]))]);
    assert!(matches!(decode_category::<Item>(&bad), Err(DecodeError::Schema(_))));
}

#[test]
fn root_needs_its_five_categories() {
    let err = Root::decode(&object(vec![("item", object(vec![])), ("tile", RawValue::Null)])).unwrap_err();
    assert_eq!(
        err,
        DecodeError::Schema(SchemaViolation {
            record: "Root".to_string(),
            missing: vec![
                "fluid".to_string(),
                "recipe".to_string(),
                "item-group".to_string(),
                "item-subgroup".to_string()
            ],
            remaining: vec![],
        })
    );
    assert_eq!(
        Root::decode(&RawValue::Bool(false)).unwrap_err(),
        DecodeError::Format(FormatError::UnexpectedKind(Kind::Bool))
    );
    assert_eq!(
        Root::decode(&object(vec![("item", RawValue::Array(vec![]))])).unwrap_err(),
        DecodeError::Format(FormatError::UnexpectedKind(Kind::Array))
    );
}

#[test]
fn list_of_records() {
    let one = object(vec![("type", text("item")), ("name", text("coal")), ("amount", number("1"))]);
    let two = object(vec![("type", text("fluid")), ("name", text("water")), ("amount", number("2.5"))]);
    let got = VecOrMap::<RecipeIngredient>::decode(&RawValue::Array(vec![one, two])).unwrap();
    assert_eq!(got.0.len(), 2);
    assert_eq!(got.0[1].name, "water");
    assert_eq!(got.0[1].amount, "2.5");
    assert!(VecOrMap::<RecipeIngredient>::decode(&object(vec![])).unwrap().0.is_empty());
    let bad = RawValue::Array(vec![object(vec![("type", text("item"))])]);
    assert!(matches!(
        VecOrMap::<RecipeIngredient>::decode(&bad),
        Err(DecodeError::Schema(_))
    ));
}
