use supervisors::decode::Decode;
use supervisors::id_generator::IdGenerator;
use supervisors::preset::{FluidId, ItemId, Preset, RecipeId};
use supervisors::records::RecipeIngredient;
use supervisors::root::Root;
use supervisors::value::RawValue;

fn text(s: &str) -> RawValue {
    RawValue::String(s.to_string())
}

fn number(s: &str) -> RawValue {
    RawValue::Number(s.to_string())
}

fn object(entries: Vec<(&str, RawValue)>) -> RawValue {
    RawValue::Object(entries.into_iter().map(|(k, v)| (k.to_string(), v)).collect())
}

fn record(name: &str, subgroup: &str, order: &str) -> RawValue {
    object(vec![("name", text(name)), ("subgroup", text(subgroup)), ("order", text(order))])
}

#[test]
fn two_record_dump_end_to_end() {
    let ingredient =
        object(vec![("type", text("item")), ("name", text("iron-plate")), ("amount", number("2"))]);
    let dump = object(vec![
        (
            "item",
            object(vec![("iron-plate", object(vec![("name", text("iron-plate"))]))]),
        ),
        ("fluid", object(vec![])),
        (
            "recipe",
            object(vec![(
                "iron-gear",
                object(vec![
                    ("name", text("iron-gear")),
                    ("ingredients", RawValue::Array(vec![ingredient])),
                ]),
            )]),
        ),
        ("item-group", object(vec![])),
        ("item-subgroup", object(vec![])),
    ]);
    let root = Root::decode(&dump).unwrap();
    let preset = Preset::build("py", &root);
    assert_eq!(preset.name, "py");
    assert_eq!(preset.items.len(), 1);
    assert_eq!(preset.items[0].id, ItemId(0));
    assert_eq!(preset.items[0].name, "iron-plate");
    assert_eq!(preset.recipes.len(), 1);
    assert_eq!(preset.recipes[0].id, RecipeId(0));
    assert!(preset.fluids.is_empty());
    assert!(preset.groups.is_empty());

    let recipe = root.recipe.get("iron-gear").unwrap();
    let ingredients = match recipe.remaining.get("ingredients") {
        Some(RawValue::Array(items)) => items,
        other => panic!("{other:?}"),
    };
    let ingredient = RecipeIngredient::decode(&ingredients[0]).unwrap();
    let interned = Preset::intern(&root);
    assert_eq!(interned.items.position(&ingredient.name), Some(0));
    assert_eq!(interned.items.get(&ingredient.name), ItemId(0));
    assert_eq!(interned.items.get(&ingredient.name), preset.items[0].id);
    assert_eq!(preset.item_named(&ingredient.name).map(|i| i.id), Some(ItemId(0)));
}

#[test]
fn identifiers_are_positions_in_ascending_order() {
    let names = vec!["wood", "coal", "iron-ore", "coal", "Coal", "co"];
    let frozen = IdGenerator::<ItemId>::from_iter(names.iter().map(|s| s.to_string()).collect());
    assert_eq!(frozen.len(), 5);
    let sorted: Vec<&str> = (0..frozen.len()).map(|i| frozen.name(i).as_str()).collect();
    assert_eq!(sorted, vec!["Coal", "co", "coal", "iron-ore", "wood"]);
    assert_eq!(frozen.get(&"Coal".to_string()), ItemId(0));
    assert_eq!(frozen.get(&"coal".to_string()), ItemId(2));
    assert_eq!(frozen.get(&"wood".to_string()), ItemId(4));
    assert_eq!(frozen.position("stone"), None);
    assert_eq!(frozen.position(""), None);
    assert_eq!(frozen.position("zinc"), None);
}

#[test]
fn identifiers_do_not_depend_on_the_order_of_arrival() {
    let a = IdGenerator::<FluidId>::from_iter(vec!["b".to_string(), "a".to_string(), "c".to_string()]);
    let mut generator = IdGenerator::<FluidId>::new();
    generator.add("c".to_string());
    generator.add("a".to_string());
    generator.add("b".to_string());
    generator.add("a".to_string());
    let b = generator.freeze();
    assert_eq!(a.len(), b.len());
    for name in ["a", "b", "c"] {
        assert_eq!(a.get(&name.to_string()), b.get(&name.to_string()));
    }
    assert_eq!(a.get(&"c".to_string()), FluidId(2));
    let empty = IdGenerator::<FluidId>::default().freeze();
    assert_eq!(empty.len(), 0);
    assert_eq!(empty.position("a"), None);
}

#[test]
fn tabs_and_rows_are_arranged_by_order() {
    let dump = object(vec![
        (
            "item",
            object(vec![
                ("wood", record("wood", "raw", "b")),
                ("coal", record("coal", "raw", "a")),
                ("belt", record("belt", "transport", "a")),
                ("stone", record("stone", "raw", "a")),
                ("odd", object(vec![("name", text("odd")), ("subgroup", text("raw"))])),
                ("loose", object(vec![("name", text("loose"))])),
            ]),
        ),
        ("fluid", object(vec![("water", record("water", "raw", "c"))])),
        ("recipe", object(vec![("smelt", record("smelt", "transport", "x"))])),
        (
            "item-group",
            object(vec![
                ("production", object(vec![("name", text("production")), ("order", text("b"))])),
                ("logistics", object(vec![("name", text("logistics")), ("order", text("a"))])),
            ]),
        ),
        (
            "item-subgroup",
            object(vec![
                (
                    "raw",
                    object(vec![
                        ("name", text("raw")),
                        ("order", text("z")),
                        ("group", text("production")),
                    ]),
                ),
                (
                    "transport",
                    object(vec![
                        ("name", text("transport")),
                        ("order", text("a")),
                        ("group", text("logistics")),
                    ]),
                ),
                (
                    "empty",
                    object(vec![
                        ("name", text("empty")),
                        ("order", text("b")),
                        ("group", text("production")),
                    ]),
                ),
            ]),
        ),
    ]);
    let root = Root::decode(&dump).unwrap();
    let preset = Preset::build("test", &root);
    let names: Vec<&str> = preset.items.iter().map(|i| i.name.as_str()).collect();
    assert_eq!(names, vec!["belt", "coal", "loose", "odd", "stone", "wood"]);
    for (i, item) in preset.items.iter().enumerate() {
        assert_eq!(item.id, ItemId(i as u64));
    }
    let groups: Vec<&str> = preset.groups.iter().map(|g| g.name.as_str()).collect();
    assert_eq!(groups, vec!["logistics", "production"]);
    let production = &preset.groups[1];
    assert_eq!(production.order, "b");
    let rows: Vec<&str> = production.rows.iter().map(|r| r.name.as_str()).collect();
    assert_eq!(rows, vec!["empty", "raw"]);
    let raw = &production.rows[1];
    assert_eq!(raw.order, "z");
    // odd has no order and comes first; coal and stone share an order and keep the order of
    // the document
    assert_eq!(raw.items, vec![ItemId(3), ItemId(1), ItemId(4), ItemId(5)]);
    assert_eq!(raw.fluids, vec![FluidId(0)]);
    assert!(raw.recipes.is_empty());
    assert!(production.rows[0].items.is_empty());
    assert_eq!(preset.item_named("stone").map(|i| i.id), Some(ItemId(4)));
    assert_eq!(preset.item_named("belt").map(|i| i.id), Some(ItemId(0)));
    assert_eq!(preset.item_named("wood").map(|i| i.id), Some(ItemId(5)));
    assert!(preset.item_named("water").is_none());
    assert_eq!(preset.fluid_named("water").map(|f| f.id), Some(FluidId(0)));
    assert_eq!(preset.recipe_named("smelt").map(|r| r.id), Some(RecipeId(0)));
    assert!(preset.recipe_named("").is_none());
    let transport = &preset.groups[0].rows[0];
    assert_eq!(transport.items, vec![ItemId(0)]);
    assert_eq!(transport.recipes, vec![RecipeId(0)]);
}

#[test]
fn icon_paths() {
    let dump = object(vec![
        ("item", object(vec![("coal", object(vec![("name", text("coal"))]))])),
        ("fluid", object(vec![("water", object(vec![("name", text("water"))]))])),
        ("recipe", object(vec![("gear", object(vec![("name", text("gear"))]))])),
        (
            "item-group",
            object(vec![("tab", object(vec![("name", text("tab")), ("order", text("a"))]))]),
        ),
        ("item-subgroup", object(vec![])),
    ]);
    let preset = Preset::build("py", &Root::decode(&dump).unwrap());
    assert_eq!(preset.icon_for_item(&preset.items[0]), "preset/py/script-output/item/coal.png");
    assert_eq!(preset.icon_for_fluid(&preset.fluids[0]), "preset/py/script-output/fluid/water.png");
    assert_eq!(preset.icon_for_recipe(&preset.recipes[0]), "preset/py/script-output/recipe/gear.png");
    assert_eq!(
        preset.icon_for_tab_group(&preset.groups[0]),
        "preset/py/script-output/item-group/tab.png"
    );
}
