use crate::decode::Decode;
use crate::error::{DecodeError, DecodeErrorView};
use crate::record::{
    record_decoded, ElementDecoder, FieldSpec, FieldSpecView, FieldValue, FieldValueView, Fields,
    FieldsView, Schema, SchemaView,
};
use crate::table::Table;
use crate::value::{entries_view, JsonValue, RawValue};
use vstd::prelude::*;
use vstd::string::StringExecFns;

verus! {

/// The model of a field that is read under its name and, where the name has underscores,
/// under the name with hyphens in their place.
pub open spec fn field_model(
    name: Seq<char>,
    aliases: Seq<Seq<char>>,
    required: bool,
    decoder: ElementDecoder,
) -> FieldSpecView {
    FieldSpecView { name, aliases, required, decoder }
}

/// A field that is read under `name` only.
pub fn plain_field(name: &str, required: bool, decoder: ElementDecoder) -> (field: FieldSpec)
    ensures
        field@ == field_model(name@, Seq::empty(), required, decoder),
{
    let field = FieldSpec { name: String::from_str(name), aliases: Vec::new(), required, decoder };
    assert(field@.aliases =~= Seq::<Seq<char>>::empty());
    field
}

/// A field that is read under `name` and under `alias`.
pub fn aliased_field(name: &str, alias: &str, required: bool, decoder: ElementDecoder) -> (field:
    FieldSpec)
    ensures
        field@ == field_model(name@, seq![alias@], required, decoder),
{
    let mut aliases: Vec<String> = Vec::new();
    aliases.push(String::from_str(alias));
    let field = FieldSpec { name: String::from_str(name), aliases, required, decoder };
    assert(field@.aliases =~= seq![alias@]);
    field
}

/// Takes the last value, a text or nothing, off `values`.
fn pop_text(values: &mut Vec<Option<FieldValue>>) -> (out: Option<String>)
    requires
        old(values)@.len() > 0,
        old(values)@.last() matches Some(v) ==> v is Text,
    ensures
        final(values)@ == old(values)@.drop_last(),
        match old(values)@.last() {
            Some(FieldValue::Text(s)) => out == Some(s),
            _ => out is None,
        },
{
    match values.pop() {
        Some(Some(FieldValue::Text(s))) => Some(s),
        _ => None,
    }
}

/// Takes the last value, a number literal or nothing, off `values`.
fn pop_number(values: &mut Vec<Option<FieldValue>>) -> (out: Option<String>)
    requires
        old(values)@.len() > 0,
        old(values)@.last() matches Some(v) ==> v is Number,
    ensures
        final(values)@ == old(values)@.drop_last(),
        match old(values)@.last() {
            Some(FieldValue::Number(s)) => out == Some(s),
            _ => out is None,
        },
{
    match values.pop() {
        Some(Some(FieldValue::Number(s))) => Some(s),
        _ => None,
    }
}

/// Takes the last value, a size or nothing, off `values`.
fn pop_size(values: &mut Vec<Option<FieldValue>>) -> (out: Option<usize>)
    requires
        old(values)@.len() > 0,
        old(values)@.last() matches Some(v) ==> v is Size,
    ensures
        final(values)@ == old(values)@.drop_last(),
        match old(values)@.last() {
            Some(FieldValue::Size(n)) => out == Some(n),
            _ => out is None,
        },
{
    match values.pop() {
        Some(Some(FieldValue::Size(n))) => Some(n),
        _ => None,
    }
}

/// Takes the last value, a byte or nothing, off `values`.
fn pop_byte(values: &mut Vec<Option<FieldValue>>) -> (out: Option<u8>)
    requires
        old(values)@.len() > 0,
        old(values)@.last() matches Some(v) ==> v is Byte,
    ensures
        final(values)@ == old(values)@.drop_last(),
        match old(values)@.last() {
            Some(FieldValue::Byte(n)) => out == Some(n),
            _ => out is None,
        },
{
    match values.pop() {
        Some(Some(FieldValue::Byte(n))) => Some(n),
        _ => None,
    }
}

/// An item group: one tab of the selector.
#[derive(Debug)]
pub struct ItemGroup {
    pub name: String,
    pub order: String,
    /// The entries that no field accepts, undecoded.
    pub remaining: Table<RawValue>,
}

impl View for ItemGroup {
    type V = FieldsView;

    open spec fn view(&self) -> FieldsView {
        FieldsView {
            values: seq![
                Some(FieldValueView::Text(self.name@)),
                Some(FieldValueView::Text(self.order@)),
            ],
            remaining: entries_view(self.remaining.entries()),
        }
    }
}

impl ItemGroup {
    /// The field table of the record.
    pub open spec fn schema_model() -> SchemaView {
        SchemaView {
            record: "ItemGroup"@,
            fields: seq![
                field_model("name"@, Seq::empty(), true, ElementDecoder::Text),
                field_model("order"@, Seq::empty(), true, ElementDecoder::Text),
            ],
        }
    }

    /// The field table of the record.
    pub fn schema() -> (schema: Schema)
        ensures
            schema@ == Self::schema_model(),
    {
        let mut fields: Vec<FieldSpec> = Vec::new();
        fields.push(plain_field("name", true, ElementDecoder::Text));
        fields.push(plain_field("order", true, ElementDecoder::Text));
        let schema = Schema { record: String::from_str("ItemGroup"), fields };
        assert(schema@.fields =~= Self::schema_model().fields);
        schema
    }
}

impl Decode for ItemGroup {
    open spec fn decoded(value: JsonValue) -> Result<FieldsView, DecodeErrorView> {
        record_decoded(ItemGroup::schema_model(), value)
    }

    fn decode(value: &RawValue) -> (got: Result<ItemGroup, DecodeError>)
        ensures
            got matches Ok(record) ==> record.remaining.wf(),
    {
        let schema = ItemGroup::schema();
        let fields = match schema.decode(value) {
            Ok(fields) => fields,
            Err(e) => {
                return Err(e);
            },
        };
        let ghost model = fields@;
        let Fields { values, remaining } = fields;
        let mut values = values;
        let ghost all = values@;
        assert(values@ =~= all.take(2));
        assert(schema@.fields[1] == schema.fields@[1]@);
        let order = pop_text(&mut values);
        assert(values@ =~= all.take(1));
        assert(schema@.fields[0] == schema.fields@[0]@);
        let name = pop_text(&mut values);
        let record = ItemGroup {
            name: name.unwrap(),
            order: order.unwrap(),
            remaining,
        };
        assert(record@.values =~= model.values);
        Ok(record)
    }
}

/// An item subgroup: one row of a tab.
#[derive(Debug)]
pub struct ItemSubgroup {
    pub name: String,
    pub order: String,
    pub group: String,
    /// The entries that no field accepts, undecoded.
    pub remaining: Table<RawValue>,
}

impl View for ItemSubgroup {
    type V = FieldsView;

    open spec fn view(&self) -> FieldsView {
        FieldsView {
            values: seq![
                Some(FieldValueView::Text(self.name@)),
                Some(FieldValueView::Text(self.order@)),
                Some(FieldValueView::Text(self.group@)),
            ],
            remaining: entries_view(self.remaining.entries()),
        }
    }
}

impl ItemSubgroup {
    /// The field table of the record.
    pub open spec fn schema_model() -> SchemaView {
        SchemaView {
            record: "ItemSubgroup"@,
            fields: seq![
                field_model("name"@, Seq::empty(), true, ElementDecoder::Text),
                field_model("order"@, Seq::empty(), true, ElementDecoder::Text),
                field_model("group"@, Seq::empty(), true, ElementDecoder::Text),
            ],
        }
    }

    /// The field table of the record.
    pub fn schema() -> (schema: Schema)
        ensures
            schema@ == Self::schema_model(),
    {
        let mut fields: Vec<FieldSpec> = Vec::new();
        fields.push(plain_field("name", true, ElementDecoder::Text));
        fields.push(plain_field("order", true, ElementDecoder::Text));
        fields.push(plain_field("group", true, ElementDecoder::Text));
        let schema = Schema { record: String::from_str("ItemSubgroup"), fields };
        assert(schema@.fields =~= Self::schema_model().fields);
        schema
    }
}

impl Decode for ItemSubgroup {
    open spec fn decoded(value: JsonValue) -> Result<FieldsView, DecodeErrorView> {
        record_decoded(ItemSubgroup::schema_model(), value)
    }

    fn decode(value: &RawValue) -> (got: Result<ItemSubgroup, DecodeError>)
        ensures
            got matches Ok(record) ==> record.remaining.wf(),
    {
        let schema = ItemSubgroup::schema();
        let fields = match schema.decode(value) {
            Ok(fields) => fields,
            Err(e) => {
                return Err(e);
            },
        };
        let ghost model = fields@;
        let Fields { values, remaining } = fields;
        let mut values = values;
        let ghost all = values@;
        assert(values@ =~= all.take(3));
        assert(schema@.fields[2] == schema.fields@[2]@);
        let group = pop_text(&mut values);
        assert(values@ =~= all.take(2));
        assert(schema@.fields[1] == schema.fields@[1]@);
        let order = pop_text(&mut values);
        assert(values@ =~= all.take(1));
        assert(schema@.fields[0] == schema.fields@[0]@);
        let name = pop_text(&mut values);
        let record = ItemSubgroup {
            name: name.unwrap(),
            order: order.unwrap(),
            group: group.unwrap(),
            remaining,
        };
        assert(record@.values =~= model.values);
        Ok(record)
    }
}

/// An item as the dump describes it.
#[derive(Debug)]
pub struct Item {
    pub name: String,
    pub group: Option<String>,
    pub subgroup: Option<String>,
    pub order: Option<String>,
    pub category: Option<String>,
    /// The entries that no field accepts, undecoded.
    pub remaining: Table<RawValue>,
}

impl View for Item {
    type V = FieldsView;

    open spec fn view(&self) -> FieldsView {
        FieldsView {
            values: seq![
                Some(FieldValueView::Text(self.name@)),
                match self.group {
                    Some(v) => Some(FieldValueView::Text(v@)),
                    None => None,
                },
                match self.subgroup {
                    Some(v) => Some(FieldValueView::Text(v@)),
                    None => None,
                },
                match self.order {
                    Some(v) => Some(FieldValueView::Text(v@)),
                    None => None,
                },
                match self.category {
                    Some(v) => Some(FieldValueView::Text(v@)),
                    None => None,
                },
            ],
            remaining: entries_view(self.remaining.entries()),
        }
    }
}

impl Item {
    /// The field table of the record.
    pub open spec fn schema_model() -> SchemaView {
        SchemaView {
            record: "Item"@,
            fields: seq![
                field_model("name"@, Seq::empty(), true, ElementDecoder::Text),
                field_model("group"@, Seq::empty(), false, ElementDecoder::Text),
                field_model("subgroup"@, Seq::empty(), false, ElementDecoder::Text),
                field_model("order"@, Seq::empty(), false, ElementDecoder::Text),
                field_model("category"@, Seq::empty(), false, ElementDecoder::Text),
            ],
        }
    }

    /// The field table of the record.
    pub fn schema() -> (schema: Schema)
        ensures
            schema@ == Self::schema_model(),
    {
        let mut fields: Vec<FieldSpec> = Vec::new();
        fields.push(plain_field("name", true, ElementDecoder::Text));
        fields.push(plain_field("group", false, ElementDecoder::Text));
        fields.push(plain_field("subgroup", false, ElementDecoder::Text));
        fields.push(plain_field("order", false, ElementDecoder::Text));
        fields.push(plain_field("category", false, ElementDecoder::Text));
        let schema = Schema { record: String::from_str("Item"), fields };
        assert(schema@.fields =~= Self::schema_model().fields);
        schema
    }
}

impl Decode for Item {
    open spec fn decoded(value: JsonValue) -> Result<FieldsView, DecodeErrorView> {
        record_decoded(Item::schema_model(), value)
    }

    fn decode(value: &RawValue) -> (got: Result<Item, DecodeError>)
        ensures
            got matches Ok(record) ==> record.remaining.wf(),
    {
        let schema = Item::schema();
        let fields = match schema.decode(value) {
            Ok(fields) => fields,
            Err(e) => {
                return Err(e);
            },
        };
        let ghost model = fields@;
        let Fields { values, remaining } = fields;
        let mut values = values;
        let ghost all = values@;
        assert(values@ =~= all.take(5));
        assert(schema@.fields[4] == schema.fields@[4]@);
        let category = pop_text(&mut values);
        assert(values@ =~= all.take(4));
        assert(schema@.fields[3] == schema.fields@[3]@);
        let order = pop_text(&mut values);
        assert(values@ =~= all.take(3));
        assert(schema@.fields[2] == schema.fields@[2]@);
        let subgroup = pop_text(&mut values);
        assert(values@ =~= all.take(2));
        assert(schema@.fields[1] == schema.fields@[1]@);
        let group = pop_text(&mut values);
        assert(values@ =~= all.take(1));
        assert(schema@.fields[0] == schema.fields@[0]@);
        let name = pop_text(&mut values);
        let record = Item {
            name: name.unwrap(),
            group,
            subgroup,
            order,
            category,
            remaining,
        };
        assert(record@.values =~= model.values);
        Ok(record)
    }
}

/// A fluid as the dump describes it.
#[derive(Debug)]
pub struct Fluid {
    pub name: String,
    pub group: Option<String>,
    pub subgroup: Option<String>,
    pub order: Option<String>,
    /// The entries that no field accepts, undecoded.
    pub remaining: Table<RawValue>,
}

impl View for Fluid {
    type V = FieldsView;

    open spec fn view(&self) -> FieldsView {
        FieldsView {
            values: seq![
                Some(FieldValueView::Text(self.name@)),
                match self.group {
                    Some(v) => Some(FieldValueView::Text(v@)),
                    None => None,
                },
                match self.subgroup {
                    Some(v) => Some(FieldValueView::Text(v@)),
                    None => None,
                },
                match self.order {
                    Some(v) => Some(FieldValueView::Text(v@)),
                    None => None,
                },
            ],
            remaining: entries_view(self.remaining.entries()),
        }
    }
}

impl Fluid {
    /// The field table of the record.
    pub open spec fn schema_model() -> SchemaView {
        SchemaView {
            record: "Fluid"@,
            fields: seq![
                field_model("name"@, Seq::empty(), true, ElementDecoder::Text),
                field_model("group"@, Seq::empty(), false, ElementDecoder::Text),
                field_model("subgroup"@, Seq::empty(), false, ElementDecoder::Text),
                field_model("order"@, Seq::empty(), false, ElementDecoder::Text),
            ],
        }
    }

    /// The field table of the record.
    pub fn schema() -> (schema: Schema)
        ensures
            schema@ == Self::schema_model(),
    {
        let mut fields: Vec<FieldSpec> = Vec::new();
        fields.push(plain_field("name", true, ElementDecoder::Text));
        fields.push(plain_field("group", false, ElementDecoder::Text));
        fields.push(plain_field("subgroup", false, ElementDecoder::Text));
        fields.push(plain_field("order", false, ElementDecoder::Text));
        let schema = Schema { record: String::from_str("Fluid"), fields };
        assert(schema@.fields =~= Self::schema_model().fields);
        schema
    }
}

impl Decode for Fluid {
    open spec fn decoded(value: JsonValue) -> Result<FieldsView, DecodeErrorView> {
        record_decoded(Fluid::schema_model(), value)
    }

    fn decode(value: &RawValue) -> (got: Result<Fluid, DecodeError>)
        ensures
            got matches Ok(record) ==> record.remaining.wf(),
    {
        let schema = Fluid::schema();
        let fields = match schema.decode(value) {
            Ok(fields) => fields,
            Err(e) => {
                return Err(e);
            },
        };
        let ghost model = fields@;
        let Fields { values, remaining } = fields;
        let mut values = values;
        let ghost all = values@;
        assert(values@ =~= all.take(4));
        assert(schema@.fields[3] == schema.fields@[3]@);
        let order = pop_text(&mut values);
        assert(values@ =~= all.take(3));
        assert(schema@.fields[2] == schema.fields@[2]@);
        let subgroup = pop_text(&mut values);
        assert(values@ =~= all.take(2));
        assert(schema@.fields[1] == schema.fields@[1]@);
        let group = pop_text(&mut values);
        assert(values@ =~= all.take(1));
        assert(schema@.fields[0] == schema.fields@[0]@);
        let name = pop_text(&mut values);
        let record = Fluid {
            name: name.unwrap(),
            group,
            subgroup,
            order,
            remaining,
        };
        assert(record@.values =~= model.values);
        Ok(record)
    }
}

/// A recipe as the dump describes it.
#[derive(Debug)]
pub struct Recipe {
    pub name: String,
    pub category: Option<String>,
    pub group: Option<String>,
    pub subgroup: Option<String>,
    pub order: Option<String>,
    /// The entries that no field accepts, undecoded.
    pub remaining: Table<RawValue>,
}

impl View for Recipe {
    type V = FieldsView;

    open spec fn view(&self) -> FieldsView {
        FieldsView {
            values: seq![
                Some(FieldValueView::Text(self.name@)),
                match self.category {
                    Some(v) => Some(FieldValueView::Text(v@)),
                    None => None,
                },
                match self.group {
                    Some(v) => Some(FieldValueView::Text(v@)),
                    None => None,
                },
                match self.subgroup {
                    Some(v) => Some(FieldValueView::Text(v@)),
                    None => None,
                },
                match self.order {
                    Some(v) => Some(FieldValueView::Text(v@)),
                    None => None,
                },
            ],
            remaining: entries_view(self.remaining.entries()),
        }
    }
}

impl Recipe {
    /// The field table of the record.
    pub open spec fn schema_model() -> SchemaView {
        SchemaView {
            record: "Recipe"@,
            fields: seq![
                field_model("name"@, Seq::empty(), true, ElementDecoder::Text),
                field_model("category"@, Seq::empty(), false, ElementDecoder::Text),
                field_model("group"@, Seq::empty(), false, ElementDecoder::Text),
                field_model("subgroup"@, Seq::empty(), false, ElementDecoder::Text),
                field_model("order"@, Seq::empty(), false, ElementDecoder::Text),
            ],
        }
    }

    /// The field table of the record.
    pub fn schema() -> (schema: Schema)
        ensures
            schema@ == Self::schema_model(),
    {
        let mut fields: Vec<FieldSpec> = Vec::new();
        fields.push(plain_field("name", true, ElementDecoder::Text));
        fields.push(plain_field("category", false, ElementDecoder::Text));
        fields.push(plain_field("group", false, ElementDecoder::Text));
        fields.push(plain_field("subgroup", false, ElementDecoder::Text));
        fields.push(plain_field("order", false, ElementDecoder::Text));
        let schema = Schema { record: String::from_str("Recipe"), fields };
        assert(schema@.fields =~= Self::schema_model().fields);
        schema
    }
}

impl Decode for Recipe {
    open spec fn decoded(value: JsonValue) -> Result<FieldsView, DecodeErrorView> {
        record_decoded(Recipe::schema_model(), value)
    }

    fn decode(value: &RawValue) -> (got: Result<Recipe, DecodeError>)
        ensures
            got matches Ok(record) ==> record.remaining.wf(),
    {
        let schema = Recipe::schema();
        let fields = match schema.decode(value) {
            Ok(fields) => fields,
            Err(e) => {
                return Err(e);
            },
        };
        let ghost model = fields@;
        let Fields { values, remaining } = fields;
        let mut values = values;
        let ghost all = values@;
        assert(values@ =~= all.take(5));
        assert(schema@.fields[4] == schema.fields@[4]@);
        let order = pop_text(&mut values);
        assert(values@ =~= all.take(4));
        assert(schema@.fields[3] == schema.fields@[3]@);
        let subgroup = pop_text(&mut values);
        assert(values@ =~= all.take(3));
        assert(schema@.fields[2] == schema.fields@[2]@);
        let group = pop_text(&mut values);
        assert(values@ =~= all.take(2));
        assert(schema@.fields[1] == schema.fields@[1]@);
        let category = pop_text(&mut values);
        assert(values@ =~= all.take(1));
        assert(schema@.fields[0] == schema.fields@[0]@);
        let name = pop_text(&mut values);
        let record = Recipe {
            name: name.unwrap(),
            category,
            group,
            subgroup,
            order,
            remaining,
        };
        assert(record@.values =~= model.values);
        Ok(record)
    }
}

/// One ingredient of a recipe. Amounts are number literals.
#[derive(Debug)]
pub struct RecipeIngredient {
    pub ty: String,
    pub name: String,
    pub amount: String,
    pub catalyst_amount: Option<String>,
    pub minimum_temperature: Option<String>,
    pub maximum_temperature: Option<String>,
    pub fluidbox_index: Option<String>,
    pub ignored_by_stats: Option<usize>,
    /// The entries that no field accepts, undecoded.
    pub remaining: Table<RawValue>,
}

impl View for RecipeIngredient {
    type V = FieldsView;

    open spec fn view(&self) -> FieldsView {
        FieldsView {
            values: seq![
                Some(FieldValueView::Text(self.ty@)),
                Some(FieldValueView::Text(self.name@)),
                Some(FieldValueView::Number(self.amount@)),
                match self.catalyst_amount {
                    Some(v) => Some(FieldValueView::Number(v@)),
                    None => None,
                },
                match self.minimum_temperature {
                    Some(v) => Some(FieldValueView::Number(v@)),
                    None => None,
                },
                match self.maximum_temperature {
                    Some(v) => Some(FieldValueView::Number(v@)),
                    None => None,
                },
                match self.fluidbox_index {
                    Some(v) => Some(FieldValueView::Number(v@)),
                    None => None,
                },
                match self.ignored_by_stats {
                    Some(v) => Some(FieldValueView::Size(v)),
                    None => None,
                },
            ],
            remaining: entries_view(self.remaining.entries()),
        }
    }
}

impl RecipeIngredient {
    /// The field table of the record.
    pub open spec fn schema_model() -> SchemaView {
        SchemaView {
            record: "RecipeIngredient"@,
            fields: seq![
                field_model("type"@, Seq::empty(), true, ElementDecoder::Text),
                field_model("name"@, Seq::empty(), true, ElementDecoder::Text),
                field_model("amount"@, Seq::empty(), true, ElementDecoder::Number),
                field_model("catalyst_amount"@, seq!["catalyst-amount"@], false, ElementDecoder::Number),
                field_model("minimum_temperature"@, seq!["minimum-temperature"@], false, ElementDecoder::Number),
                field_model("maximum_temperature"@, seq!["maximum-temperature"@], false, ElementDecoder::Number),
                field_model("fluidbox_index"@, seq!["fluidbox-index"@], false, ElementDecoder::Number),
                field_model("ignored_by_stats"@, seq!["ignored-by-stats"@], false, ElementDecoder::Size),
            ],
        }
    }

    /// The field table of the record.
    pub fn schema() -> (schema: Schema)
        ensures
            schema@ == Self::schema_model(),
    {
        let mut fields: Vec<FieldSpec> = Vec::new();
        fields.push(plain_field("type", true, ElementDecoder::Text));
        fields.push(plain_field("name", true, ElementDecoder::Text));
        fields.push(plain_field("amount", true, ElementDecoder::Number));
        fields.push(aliased_field("catalyst_amount", "catalyst-amount", false, ElementDecoder::Number));
        fields.push(aliased_field("minimum_temperature", "minimum-temperature", false, ElementDecoder::Number));
        fields.push(aliased_field("maximum_temperature", "maximum-temperature", false, ElementDecoder::Number));
        fields.push(aliased_field("fluidbox_index", "fluidbox-index", false, ElementDecoder::Number));
        fields.push(aliased_field("ignored_by_stats", "ignored-by-stats", false, ElementDecoder::Size));
        let schema = Schema { record: String::from_str("RecipeIngredient"), fields };
        assert(schema@.fields =~= Self::schema_model().fields);
        schema
    }
}

impl Decode for RecipeIngredient {
    open spec fn decoded(value: JsonValue) -> Result<FieldsView, DecodeErrorView> {
        record_decoded(RecipeIngredient::schema_model(), value)
    }

    fn decode(value: &RawValue) -> (got: Result<RecipeIngredient, DecodeError>)
        ensures
            got matches Ok(record) ==> record.remaining.wf(),
    {
        let schema = RecipeIngredient::schema();
        let fields = match schema.decode(value) {
            Ok(fields) => fields,
            Err(e) => {
                return Err(e);
            },
        };
        let ghost model = fields@;
        let Fields { values, remaining } = fields;
        let mut values = values;
        let ghost all = values@;
        assert(values@ =~= all.take(8));
        assert(schema@.fields[7] == schema.fields@[7]@);
        let ignored_by_stats = pop_size(&mut values);
        assert(values@ =~= all.take(7));
        assert(schema@.fields[6] == schema.fields@[6]@);
        let fluidbox_index = pop_number(&mut values);
        assert(values@ =~= all.take(6));
        assert(schema@.fields[5] == schema.fields@[5]@);
        let maximum_temperature = pop_number(&mut values);
        assert(values@ =~= all.take(5));
        assert(schema@.fields[4] == schema.fields@[4]@);
        let minimum_temperature = pop_number(&mut values);
        assert(values@ =~= all.take(4));
        assert(schema@.fields[3] == schema.fields@[3]@);
        let catalyst_amount = pop_number(&mut values);
        assert(values@ =~= all.take(3));
        assert(schema@.fields[2] == schema.fields@[2]@);
        let amount = pop_number(&mut values);
        assert(values@ =~= all.take(2));
        assert(schema@.fields[1] == schema.fields@[1]@);
        let name = pop_text(&mut values);
        assert(values@ =~= all.take(1));
        assert(schema@.fields[0] == schema.fields@[0]@);
        let ty = pop_text(&mut values);
        let record = RecipeIngredient {
            ty: ty.unwrap(),
            name: name.unwrap(),
            amount: amount.unwrap(),
            catalyst_amount,
            minimum_temperature,
            maximum_temperature,
            fluidbox_index,
            ignored_by_stats,
            remaining,
        };
        assert(record@.values =~= model.values);
        Ok(record)
    }
}

/// One result of a recipe. Amounts are number literals.
#[derive(Debug)]
pub struct RecipeResult {
    pub ty: String,
    pub name: String,
    pub amount: Option<String>,
    pub probability: Option<String>,
    pub amount_min: Option<String>,
    pub amount_max: Option<String>,
    pub fluidbox_index: Option<u8>,
    pub catalyst_amount: Option<String>,
    pub temperature: Option<String>,
    pub ignored_by_stats: Option<usize>,
    pub ignored_by_productivity: Option<usize>,
    pub percent_spoiled: Option<String>,
    /// The entries that no field accepts, undecoded.
    pub remaining: Table<RawValue>,
}

impl View for RecipeResult {
    type V = FieldsView;

    open spec fn view(&self) -> FieldsView {
        FieldsView {
            values: seq![
                Some(FieldValueView::Text(self.ty@)),
                Some(FieldValueView::Text(self.name@)),
                match self.amount {
                    Some(v) => Some(FieldValueView::Number(v@)),
                    None => None,
                },
                match self.probability {
                    Some(v) => Some(FieldValueView::Number(v@)),
                    None => None,
                },
                match self.amount_min {
                    Some(v) => Some(FieldValueView::Number(v@)),
                    None => None,
                },
                match self.amount_max {
                    Some(v) => Some(FieldValueView::Number(v@)),
                    None => None,
                },
                match self.fluidbox_index {
                    Some(v) => Some(FieldValueView::Byte(v)),
                    None => None,
                },
                match self.catalyst_amount {
                    Some(v) => Some(FieldValueView::Number(v@)),
                    None => None,
                },
                match self.temperature {
                    Some(v) => Some(FieldValueView::Number(v@)),
                    None => None,
                },
                match self.ignored_by_stats {
                    Some(v) => Some(FieldValueView::Size(v)),
                    None => None,
                },
                match self.ignored_by_productivity {
                    Some(v) => Some(FieldValueView::Size(v)),
                    None => None,
                },
                match self.percent_spoiled {
                    Some(v) => Some(FieldValueView::Number(v@)),
                    None => None,
                },
            ],
            remaining: entries_view(self.remaining.entries()),
        }
    }
}

impl RecipeResult {
    /// The field table of the record.
    pub open spec fn schema_model() -> SchemaView {
        SchemaView {
            record: "RecipeResult"@,
            fields: seq![
                field_model("type"@, Seq::empty(), true, ElementDecoder::Text),
                field_model("name"@, Seq::empty(), true, ElementDecoder::Text),
                field_model("amount"@, Seq::empty(), false, ElementDecoder::Number),
                field_model("probability"@, Seq::empty(), false, ElementDecoder::Number),
                field_model("amount_min"@, seq!["amount-min"@], false, ElementDecoder::Number),
                field_model("amount_max"@, seq!["amount-max"@], false, ElementDecoder::Number),
                field_model("fluidbox_index"@, seq!["fluidbox-index"@], false, ElementDecoder::Byte),
                field_model("catalyst_amount"@, seq!["catalyst-amount"@], false, ElementDecoder::Number),
                field_model("temperature"@, Seq::empty(), false, ElementDecoder::Number),
                field_model("ignored_by_stats"@, seq!["ignored-by-stats"@], false, ElementDecoder::Size),
                field_model("ignored_by_productivity"@, seq!["ignored-by-productivity"@], false, ElementDecoder::Size),
                field_model("percent_spoiled"@, seq!["percent-spoiled"@], false, ElementDecoder::Number),
            ],
        }
    }

    /// The field table of the record.
    pub fn schema() -> (schema: Schema)
        ensures
            schema@ == Self::schema_model(),
    {
        let mut fields: Vec<FieldSpec> = Vec::new();
        fields.push(plain_field("type", true, ElementDecoder::Text));
        fields.push(plain_field("name", true, ElementDecoder::Text));
        fields.push(plain_field("amount", false, ElementDecoder::Number));
        fields.push(plain_field("probability", false, ElementDecoder::Number));
        fields.push(aliased_field("amount_min", "amount-min", false, ElementDecoder::Number));
        fields.push(aliased_field("amount_max", "amount-max", false, ElementDecoder::Number));
        fields.push(aliased_field("fluidbox_index", "fluidbox-index", false, ElementDecoder::Byte));
        fields.push(aliased_field("catalyst_amount", "catalyst-amount", false, ElementDecoder::Number));
        fields.push(plain_field("temperature", false, ElementDecoder::Number));
        fields.push(aliased_field("ignored_by_stats", "ignored-by-stats", false, ElementDecoder::Size));
        fields.push(aliased_field("ignored_by_productivity", "ignored-by-productivity", false, ElementDecoder::Size));
        fields.push(aliased_field("percent_spoiled", "percent-spoiled", false, ElementDecoder::Number));
        let schema = Schema { record: String::from_str("RecipeResult"), fields };
        assert(schema@.fields =~= Self::schema_model().fields);
        schema
    }
}

impl Decode for RecipeResult {
    open spec fn decoded(value: JsonValue) -> Result<FieldsView, DecodeErrorView> {
        record_decoded(RecipeResult::schema_model(), value)
    }

    fn decode(value: &RawValue) -> (got: Result<RecipeResult, DecodeError>)
        ensures
            got matches Ok(record) ==> record.remaining.wf(),
    {
        let schema = RecipeResult::schema();
        let fields = match schema.decode(value) {
            Ok(fields) => fields,
            Err(e) => {
                return Err(e);
            },
        };
        let ghost model = fields@;
        let Fields { values, remaining } = fields;
        let mut values = values;
        let ghost all = values@;
        assert(values@ =~= all.take(12));
        assert(schema@.fields[11] == schema.fields@[11]@);
        let percent_spoiled = pop_number(&mut values);
        assert(values@ =~= all.take(11));
        assert(schema@.fields[10] == schema.fields@[10]@);
        let ignored_by_productivity = pop_size(&mut values);
        assert(values@ =~= all.take(10));
        assert(schema@.fields[9] == schema.fields@[9]@);
        let ignored_by_stats = pop_size(&mut values);
        assert(values@ =~= all.take(9));
        assert(schema@.fields[8] == schema.fields@[8]@);
        let temperature = pop_number(&mut values);
        assert(values@ =~= all.take(8));
        assert(schema@.fields[7] == schema.fields@[7]@);
        let catalyst_amount = pop_number(&mut values);
        assert(values@ =~= all.take(7));
        assert(schema@.fields[6] == schema.fields@[6]@);
        let fluidbox_index = pop_byte(&mut values);
        assert(values@ =~= all.take(6));
        assert(schema@.fields[5] == schema.fields@[5]@);
        let amount_max = pop_number(&mut values);
        assert(values@ =~= all.take(5));
        assert(schema@.fields[4] == schema.fields@[4]@);
        let amount_min = pop_number(&mut values);
        assert(values@ =~= all.take(4));
        assert(schema@.fields[3] == schema.fields@[3]@);
        let probability = pop_number(&mut values);
        assert(values@ =~= all.take(3));
        assert(schema@.fields[2] == schema.fields@[2]@);
        let amount = pop_number(&mut values);
        assert(values@ =~= all.take(2));
        assert(schema@.fields[1] == schema.fields@[1]@);
        let name = pop_text(&mut values);
        assert(values@ =~= all.take(1));
        assert(schema@.fields[0] == schema.fields@[0]@);
        let ty = pop_text(&mut values);
        let record = RecipeResult {
            ty: ty.unwrap(),
            name: name.unwrap(),
            amount,
            probability,
            amount_min,
            amount_max,
            fluidbox_index,
            catalyst_amount,
            temperature,
            ignored_by_stats,
            ignored_by_productivity,
            percent_spoiled,
            remaining,
        };
        assert(record@.values =~= model.values);
        Ok(record)
    }
}

} // verus!
